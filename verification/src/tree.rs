//! The element tree model: a store of elements addressed by handles, with
//! mixed text/element child lists, attribute maps, a `protected` flag on
//! subtrees, and cycle-free insertion of existing nodes.
//!
//! Handles (`ElementPtr`) are indices into an `ElementStore`. Several
//! handles may refer to the same element, and an element may be a child of
//! several parents, so the store forms a directed acyclic graph. The
//! specification layer describes that graph with paths and reachability and
//! keeps it acyclic across every mutation.
use vstd::prelude::*;

use crate::attrstr::AttributeMap;
use crate::validation;

verus! {

broadcast use vstd::seq_lib::group_seq_properties;

/// Why inserting a node under a parent was refused.
#[derive(Debug, Clone, Copy, PartialEq, Eq, Structural)]
pub enum InsertError {
    NodeHasParent,
    NodeIsSelf,
    LoopDetected,
    Protected,
}

/// Why protecting a subtree was refused.
#[derive(Debug, Clone, Copy, PartialEq, Eq, Structural)]
pub enum ProtectError {
    NodeHasParent,
}

/// Why a child-list transformation was abandoned: an insertion check of the
/// tree itself failed, or the caller's transformation reported an error.
#[derive(Debug, Clone, Copy, PartialEq, Eq)]
pub enum MapElementsError<T> {
    Insert(InsertError),
    External(T),
}

/// A handle to an element of an `ElementStore`.
#[derive(Debug, Clone, Copy, PartialEq, Eq, Structural)]
pub struct ElementPtr(pub usize);

impl ElementPtr {
    /// True when the two handles refer to the same element.
    pub fn ptr_eq(this: &Self, other: &Self) -> (r: bool)
        ensures
            r == (this.0 == other.0),
    {
        this.0 == other.0
    }
}

/// One child of an element: a run of character data or another element.
#[derive(Debug, Clone)]
pub enum Node {
    Text(String),
    Element(ElementPtr),
}

impl Node {
    /// An equal copy of this node.
    pub fn duplicate(&self) -> (r: Node)
        ensures
            r == self,
    {
        match self {
            Node::Text(s) => Node::Text(s.clone()),
            Node::Element(p) => Node::Element(*p),
        }
    }

    /// Wraps a string as a text node.
    pub fn wrap_text(t: String) -> (r: Node)
        ensures
            r == Node::Text(t),
    {
        Node::Text(t)
    }

    /// The element handle, when this node is an element.
    pub fn as_element_ptr(&self) -> (r: Option<ElementPtr>)
        ensures
            match r {
                Option::Some(p) => self is Element && self->Element_0 == p,
                Option::None => self is Text,
            },
    {
        match self {
            Node::Element(el) => Some(*el),
            Node::Text(_) => None,
        }
    }

    /// The text content, when this node is character data.
    pub fn as_text(&self) -> (r: Option<&String>)
        ensures
            match r {
                Option::Some(s) => self is Text && self->Text_0 == s,
                Option::None => self is Element,
            },
    {
        match self {
            Node::Text(s) => Some(s),
            Node::Element(_) => None,
        }
    }
}

/// The ordered child list of an element, together with the positions of the
/// element children inside it.
#[derive(Debug, Clone)]
pub struct Children {
    pub all: Vec<Node>,
    pub element_indices: Vec<usize>,
}

/// Positions of the element nodes of `nodes`, in increasing order.
pub open spec fn elem_positions(nodes: Seq<Node>) -> Seq<usize>
    decreases nodes.len(),
{
    if nodes.len() == 0 {
        Seq::empty()
    } else {
        let rest = elem_positions(nodes.drop_last());
        if nodes.last() is Element {
            rest.push((nodes.len() - 1) as usize)
        } else {
            rest
        }
    }
}

/// Every recorded position points at an element node, positions increase
/// strictly, and every element node is recorded.
pub proof fn lemma_elem_positions(nodes: Seq<Node>)
    requires
        nodes.len() <= usize::MAX,
    ensures
        forall|i: int|
            0 <= i < elem_positions(nodes).len() ==> (#[trigger] elem_positions(nodes)[i]) < nodes.len()
                && nodes[elem_positions(nodes)[i] as int] is Element,
        forall|i: int, j: int|
            0 <= i < j < elem_positions(nodes).len() ==> elem_positions(nodes)[i] < elem_positions(
                nodes,
            )[j],
        forall|p: int|
            0 <= p < nodes.len() && nodes[p] is Element ==> exists|i: int|
                0 <= i < elem_positions(nodes).len() && (#[trigger] elem_positions(nodes)[i]) == p,
    decreases nodes.len(),
{
    if nodes.len() > 0 {
        lemma_elem_positions(nodes.drop_last());
        let rest = elem_positions(nodes.drop_last());
        assert forall|p: int|
            0 <= p < nodes.len() && nodes[p] is Element implies exists|i: int|
            0 <= i < elem_positions(nodes).len() && (#[trigger] elem_positions(nodes)[i]) == p by {
            if p == nodes.len() - 1 {
                assert(nodes.last() is Element);
                assert(elem_positions(nodes)[elem_positions(nodes).len() - 1] == p);
            } else {
                assert(nodes.drop_last()[p] == nodes[p]);
                let i = choose|i: int| 0 <= i < rest.len() && (#[trigger] rest[i]) == p;
                assert(elem_positions(nodes)[i] == p);
            }
        }
        assert forall|i: int|
            0 <= i < elem_positions(nodes).len() implies (#[trigger] elem_positions(nodes)[i])
            < nodes.len() && nodes[elem_positions(nodes)[i] as int] is Element by {
            if i < rest.len() {
                assert(elem_positions(nodes)[i] == rest[i]);
                assert(nodes.drop_last()[rest[i] as int] == nodes[rest[i] as int]);
            }
        }
    }
}

/// Appending a node extends the recorded positions exactly when the node is
/// an element.
pub proof fn lemma_elem_positions_push(nodes: Seq<Node>, n: Node)
    ensures
        elem_positions(nodes.push(n)) == if n is Element {
            elem_positions(nodes).push(nodes.len() as usize)
        } else {
            elem_positions(nodes)
        },
{
    assert(nodes.push(n).drop_last() =~= nodes);
    assert(nodes.push(n).last() == n);
}

impl Children {
    /// The recorded element positions agree with the child list.
    pub open spec fn wf(self) -> bool {
        self.element_indices@ == elem_positions(self.all@)
    }

    /// An empty child list.
    pub fn new() -> (r: Children)
        ensures
            r.all@ =~= Seq::<Node>::empty(),
            r.wf(),
    {
        let r = Children { all: Vec::new(), element_indices: Vec::new() };
        proof {
            assert(r.element_indices@ =~= elem_positions(r.all@));
        }
        r
    }

    /// Appends a node at the end of the child list.
    pub fn push(&mut self, n: Node)
        requires
            old(self).wf(),
        ensures
            final(self).wf(),
            final(self).all@ == old(self).all@.push(n),
    {
        proof {
            lemma_elem_positions_push(self.all@, n);
        }
        match &n {
            Node::Element(_) => {
                let index = self.all.len();
                self.all.push(n);
                self.element_indices.push(index);
            },
            _ => {
                self.all.push(n);
            },
        }
    }

    /// Number of children, texts included.
    pub fn len(&self) -> (r: usize)
        ensures
            r == self.all@.len(),
    {
        self.all.len()
    }

    /// True when the child list is empty.
    pub fn is_empty(&self) -> (r: bool)
        ensures
            r == (self.all@.len() == 0),
    {
        self.all.len() == 0
    }

    /// The child at position `i`, if any.
    pub fn get(&self, i: usize) -> (r: Option<&Node>)
        ensures
            match r {
                Option::Some(n) => i < self.all@.len() && n == self.all@[i as int],
                Option::None => i >= self.all@.len(),
            },
    {
        if i < self.all.len() {
            Some(&self.all[i])
        } else {
            None
        }
    }

    /// A snapshot view of the element children only.
    pub fn element_view(&self) -> (r: ElementView)
        requires
            self.wf(),
        ensures
            r.all@ == self.all@,
            r.indices@ == elem_positions(self.all@),
    {
        ElementView { all: duplicate_nodes(&self.all), indices: self.element_indices.clone() }
    }

    /// The handles of the element children, in order.
    pub fn iter_children(&self) -> (r: Vec<ElementPtr>)
        requires
            self.wf(),
        ensures
            r@ == child_handles(self.all@),
    {
        child_handles_of(&self.all)
    }
}

/// The element handles among `nodes`, in order.
pub open spec fn child_handles(nodes: Seq<Node>) -> Seq<ElementPtr>
    decreases nodes.len(),
{
    if nodes.len() == 0 {
        Seq::empty()
    } else {
        let rest = child_handles(nodes.drop_last());
        if nodes.last() is Element {
            rest.push(nodes.last()->Element_0)
        } else {
            rest
        }
    }
}

/// An equal copy of a node list.
#[verifier::loop_isolation(false)]
pub fn duplicate_nodes(nodes: &Vec<Node>) -> (r: Vec<Node>)
    ensures
        r@ == nodes@,
{
    let mut r: Vec<Node> = Vec::new();
    let mut i: usize = 0;
    while i < nodes.len()
        invariant
            i <= nodes@.len(),
            r@ =~= nodes@.take(i as int),
        decreases nodes@.len() - i,
    {
        r.push(nodes[i].duplicate());
        i = i + 1;
    }
    proof {
        assert(nodes@.take(nodes@.len() as int) =~= nodes@);
    }
    r
}

/// Collects the element handles of a node slice.
#[verifier::loop_isolation(false)]
fn child_handles_of(nodes: &Vec<Node>) -> (r: Vec<ElementPtr>)
    ensures
        r@ == child_handles(nodes@),
{
    let mut r: Vec<ElementPtr> = Vec::new();
    let mut i: usize = 0;
    while i < nodes.len()
        invariant
            i <= nodes@.len(),
            r@ == child_handles(nodes@.take(i as int)),
        decreases nodes@.len() - i,
    {
        proof {
            assert(nodes@.take(i + 1).drop_last() =~= nodes@.take(i as int));
            assert(nodes@.take(i + 1).last() == nodes@[i as int]);
        }
        match &nodes[i] {
            Node::Element(p) => {
                r.push(*p);
            },
            Node::Text(_) => {},
        }
        i = i + 1;
    }
    proof {
        assert(nodes@.take(nodes@.len() as int) =~= nodes@);
    }
    r
}

/// A snapshot of the element-only view over a child list: the child nodes
/// and the positions of the element children among them.
pub struct ElementView {
    pub all: Vec<Node>,
    pub indices: Vec<usize>,
}

impl ElementView {
    /// Number of element children.
    pub fn len(&self) -> (r: usize)
        ensures
            r == self.indices@.len(),
    {
        self.indices.len()
    }

    /// True when there is no element child.
    pub fn is_empty(&self) -> (r: bool)
        ensures
            r == (self.indices@.len() == 0),
    {
        self.indices.len() == 0
    }

    /// The position of the `i`-th element child inside the mixed child list.
    pub fn get_index(&self, i: usize) -> (r: Option<usize>)
        ensures
            match r {
                Option::Some(p) => i < self.indices@.len() && p == self.indices@[i as int],
                Option::None => i >= self.indices@.len(),
            },
    {
        if i < self.indices.len() {
            Some(self.indices[i])
        } else {
            None
        }
    }

    /// The handle of the `i`-th element child.
    pub fn get(&self, i: usize) -> (r: Option<ElementPtr>)
        requires
            self.indices@ == elem_positions(self.all@),
        ensures
            match r {
                Option::Some(p) => {
                    &&& i < self.indices@.len()
                    &&& self.all@[self.indices@[i as int] as int] == Node::Element(p)
                },
                Option::None => i >= self.indices@.len(),
            },
    {
        if i < self.indices.len() {
            let n = self.all.len();
            proof {
                assert(self.all@.len() == n);
                lemma_elem_positions(self.all@);
            }
            let p = self.indices[i];
            match &self.all[p] {
                Node::Element(e) => Some(*e),
                Node::Text(_) => {
                    proof {
                        assert(false);
                    }
                    None
                },
            }
        } else {
            None
        }
    }
}

/// One element: optional namespace URI, local name, attributes, children,
/// and the protection flag.
#[derive(Debug, Clone)]
pub struct Element {
    pub nsuri: Option<String>,
    pub localname: String,
    pub attr: AttributeMap,
    pub children: Children,
    pub protected: bool,
}

/// Local well-formedness of one element against a store of `n` elements.
pub open spec fn wf_element(n: int, e: Element) -> bool {
    &&& validation::valid_name(e.localname@)
    &&& match e.nsuri {
        Option::Some(ns) => validation::valid_cdata(ns@),
        Option::None => true,
    }
    &&& e.attr.wf()
    &&& e.children.wf()
    &&& forall|j: int| 0 <= j < e.children.all@.len() ==> wf_node(n, #[trigger] e.children.all@[j])
}

/// A node is well formed when its text is character data, or its target
/// handle lies inside the store.
pub open spec fn wf_node(n: int, node: Node) -> bool {
    match node {
        Node::Text(s) => validation::valid_cdata(s@),
        Node::Element(p) => p.0 < n,
    }
}

/// Every element of the store is locally well formed.
pub open spec fn wf_local(s: Seq<Element>) -> bool {
    forall|i: int| 0 <= i < s.len() ==> wf_element(s.len() as int, #[trigger] s[i])
}

/// `id` is the index of an element of the store.
pub open spec fn valid_id(s: Seq<Element>, id: int) -> bool {
    0 <= id < s.len()
}

/// `b` is an element child of `a`.
pub open spec fn is_edge(s: Seq<Element>, a: int, b: int) -> bool {
    valid_id(s, a) && exists|j: int|
        0 <= j < s[a].children.all@.len() && (#[trigger] s[a].children.all@[j]) is Element
            && s[a].children.all@[j]->Element_0.0 == b
}

/// A non-empty walk along child edges.
pub open spec fn is_path(s: Seq<Element>, p: Seq<int>) -> bool {
    &&& p.len() >= 1
    &&& forall|i: int| 0 <= i < p.len() ==> valid_id(s, #[trigger] p[i])
    &&& forall|i: int| 0 <= i < p.len() - 1 ==> is_edge(s, #[trigger] p[i], p[i + 1])
}

/// `b` lies in the subtree of `a` (`a` itself included).
pub open spec fn reaches(s: Seq<Element>, a: int, b: int) -> bool {
    exists|p: Seq<int>| is_path(s, p) && p.first() == a && p.last() == b
}

/// No child edge closes a cycle.
pub open spec fn acyclic(s: Seq<Element>) -> bool {
    forall|a: int, b: int| #[trigger] is_edge(s, a, b) ==> !reaches(s, b, a)
}

/// Children of protected elements are protected.
pub open spec fn protected_closed(s: Seq<Element>) -> bool {
    forall|a: int, b: int| #[trigger] is_edge(s, a, b) && s[a].protected ==> s[b].protected
}

/// Full well-formedness of a store.
pub open spec fn wf_store(s: Seq<Element>) -> bool {
    wf_local(s) && protected_closed(s) && acyclic(s)
}

/// Reachability is reflexive on valid elements.
pub proof fn lemma_reaches_refl(s: Seq<Element>, a: int)
    requires
        valid_id(s, a),
    ensures
        reaches(s, a, a),
{
    let p = seq![a];
    assert(is_path(s, p) && p.first() == a && p.last() == a);
}

/// A path may be prefixed with an edge into its first element.
pub proof fn lemma_path_prepend(s: Seq<Element>, a: int, p: Seq<int>)
    requires
        is_path(s, p),
        valid_id(s, a),
        is_edge(s, a, p.first()),
    ensures
        is_path(s, seq![a] + p),
        (seq![a] + p).first() == a,
        (seq![a] + p).last() == p.last(),
{
    let q = seq![a] + p;
    assert forall|i: int| 0 <= i < q.len() - 1 implies is_edge(s, #[trigger] q[i], q[i + 1]) by {
        if i == 0 {
            assert(q[0] == a && q[1] == p[0]);
        } else {
            assert(q[i] == p[i - 1] && q[i + 1] == p[i]);
        }
    }
}

/// An edge followed by reachability gives reachability.
pub proof fn lemma_reaches_step(s: Seq<Element>, a: int, b: int, c: int)
    requires
        valid_id(s, a),
        is_edge(s, a, b),
        reaches(s, b, c),
    ensures
        reaches(s, a, c),
{
    let p = choose|p: Seq<int>| is_path(s, p) && p.first() == b && p.last() == c;
    lemma_path_prepend(s, a, p);
}

/// Any contiguous part of a path is a path.
pub proof fn lemma_path_subrange(s: Seq<Element>, p: Seq<int>, lo: int, hi: int)
    requires
        is_path(s, p),
        0 <= lo < hi <= p.len(),
    ensures
        is_path(s, p.subrange(lo, hi)),
        p.subrange(lo, hi).first() == p[lo],
        p.subrange(lo, hi).last() == p[hi - 1],
{
    let q = p.subrange(lo, hi);
    assert forall|i: int| 0 <= i < q.len() - 1 implies is_edge(s, #[trigger] q[i], q[i + 1]) by {
        assert(q[i] == p[lo + i] && q[i + 1] == p[lo + i + 1]);
    }
}

/// Reachability is transitive.
pub proof fn lemma_reaches_trans(s: Seq<Element>, a: int, b: int, c: int)
    requires
        reaches(s, a, b),
        reaches(s, b, c),
    ensures
        reaches(s, a, c),
{
    let p = choose|p: Seq<int>| is_path(s, p) && p.first() == a && p.last() == b;
    let q = choose|q: Seq<int>| is_path(s, q) && q.first() == b && q.last() == c;
    let r = p + q.drop_first();
    assert forall|i: int| 0 <= i < r.len() - 1 implies is_edge(s, #[trigger] r[i], r[i + 1]) by {
        if i < p.len() - 1 {
            assert(r[i] == p[i] && r[i + 1] == p[i + 1]);
        } else if i == p.len() - 1 {
            assert(r[i] == p.last());
            if q.len() >= 2 {
                assert(r[i + 1] == q[1]);
                assert(is_edge(s, q[0], q[1]));
            }
        } else {
            assert(r[i] == q[i - p.len() + 1] && r[i + 1] == q[i - p.len() + 2]);
        }
    }
    assert(r.first() == a);
    assert(r.last() == c) by {
        if q.len() == 1 {
            assert(r =~= p);
        } else {
            assert(r.last() == q.last());
        }
    }
    assert(is_path(s, r));
}

/// A target reachable from `a` but different from it is reachable through
/// one of `a`'s element children.
pub proof fn lemma_reaches_unfold(s: Seq<Element>, a: int, b: int)
    requires
        reaches(s, a, b),
        a != b,
    ensures
        exists|c: int| is_edge(s, a, c) && #[trigger] reaches(s, c, b),
{
    let p = choose|p: Seq<int>| is_path(s, p) && p.first() == a && p.last() == b;
    assert(p.len() >= 2);
    lemma_path_subrange(s, p, 1, p.len() as int);
    let c = p[1];
    assert(is_edge(s, a, c) && reaches(s, c, b));
}

/// Everything reachable from a protected element is protected.
pub proof fn lemma_protected_reachable(s: Seq<Element>, a: int, b: int)
    requires
        protected_closed(s),
        reaches(s, a, b),
        valid_id(s, a),
        s[a].protected,
    ensures
        s[b].protected,
{
    let p = choose|p: Seq<int>| is_path(s, p) && p.first() == a && p.last() == b;
    lemma_protected_path(s, p);
}

proof fn lemma_protected_path(s: Seq<Element>, p: Seq<int>)
    requires
        protected_closed(s),
        is_path(s, p),
        s[p.first()].protected,
    ensures
        s[p.last()].protected,
    decreases p.len(),
{
    if p.len() > 1 {
        assert(is_edge(s, p[0], p[1]));
        lemma_path_subrange(s, p, 1, p.len() as int);
        lemma_protected_path(s, p.subrange(1, p.len() as int));
    }
}

} // verus!

verus! {

// ===== Heights: a termination measure over the acyclic element graph =====

/// Height of element `id`, computed with bounded recursion depth `fuel`.
pub open spec fn height_rec(s: Seq<Element>, id: int, fuel: nat) -> nat
    decreases fuel, 0nat, 0nat,
{
    if fuel == 0 || !valid_id(s, id) {
        0
    } else {
        1 + height_nodes(s, s[id].children.all@, (fuel - 1) as nat)
    }
}

/// Largest height among the element nodes of a child list.
pub open spec fn height_nodes(s: Seq<Element>, nodes: Seq<Node>, fuel: nat) -> nat
    decreases fuel, 1nat, nodes.len(),
{
    if nodes.len() == 0 {
        0
    } else {
        let h0 = match nodes[0] {
            Node::Element(p) => height_rec(s, p.0 as int, fuel),
            Node::Text(_) => 0,
        };
        let hr = height_nodes(s, nodes.drop_first(), fuel);
        if h0 >= hr {
            h0
        } else {
            hr
        }
    }
}

/// Height of element `id`: stable for any fuel at least the store size, as
/// the lemmas below show.
pub open spec fn height(s: Seq<Element>, id: int) -> nat {
    height_rec(s, id, s.len() as nat)
}

/// Every path leaving `id` has at most `k` edges.
pub open spec fn paths_bounded(s: Seq<Element>, id: int, k: nat) -> bool {
    forall|p: Seq<int>| #[trigger] is_path(s, p) && p.first() == id ==> p.len() <= k + 1
}

/// The height of a child list bounds the height of each element member.
proof fn lemma_height_nodes_ge(s: Seq<Element>, nodes: Seq<Node>, fuel: nat, j: int)
    requires
        0 <= j < nodes.len(),
        nodes[j] is Element,
    ensures
        height_nodes(s, nodes, fuel) >= height_rec(s, nodes[j]->Element_0.0 as int, fuel),
    decreases nodes.len(),
{
    if j > 0 {
        assert(nodes.drop_first()[j - 1] == nodes[j]);
        lemma_height_nodes_ge(s, nodes.drop_first(), fuel, j - 1);
    }
}

/// When each element member has equal heights under two fuels, the child
/// list does too.
proof fn lemma_height_nodes_congr(s: Seq<Element>, nodes: Seq<Node>, f1: nat, f2: nat)
    requires
        forall|j: int|
            0 <= j < nodes.len() && (#[trigger] nodes[j]) is Element ==> height_rec(
                s,
                nodes[j]->Element_0.0 as int,
                f1,
            ) == height_rec(s, nodes[j]->Element_0.0 as int, f2),
    ensures
        height_nodes(s, nodes, f1) == height_nodes(s, nodes, f2),
    decreases nodes.len(),
{
    if nodes.len() > 0 {
        assert(nodes[0] is Element ==> height_rec(s, nodes[0]->Element_0.0 as int, f1)
            == height_rec(s, nodes[0]->Element_0.0 as int, f2));
        assert forall|j: int|
            0 <= j < nodes.drop_first().len() && (#[trigger] nodes.drop_first()[j]) is Element implies height_rec(
            s,
            nodes.drop_first()[j]->Element_0.0 as int,
            f1,
        ) == height_rec(s, nodes.drop_first()[j]->Element_0.0 as int, f2) by {
            assert(nodes.drop_first()[j] == nodes[j + 1]);
        }
        lemma_height_nodes_congr(s, nodes.drop_first(), f1, f2);
    }
}

/// A bound on the paths from a parent bounds the paths from its children.
proof fn lemma_paths_bounded_child(s: Seq<Element>, a: int, c: int, k: nat)
    requires
        paths_bounded(s, a, k),
        is_edge(s, a, c),
        valid_id(s, c),
        k >= 1,
    ensures
        paths_bounded(s, c, (k - 1) as nat),
{
    assert forall|p: Seq<int>| #[trigger] is_path(s, p) && p.first() == c implies p.len() <= (k - 1)
        + 1 by {
        lemma_path_prepend(s, a, p);
        assert(is_path(s, seq![a] + p) && (seq![a] + p).first() == a);
        assert((seq![a] + p).len() <= k + 1);
    }
}

/// Above the longest path from `id`, more fuel does not change the height.
proof fn lemma_height_fuel(s: Seq<Element>, id: int, f1: nat, f2: nat, k: nat)
    requires
        wf_local(s),
        valid_id(s, id),
        paths_bounded(s, id, k),
        f1 >= k + 1,
        f2 >= k + 1,
    ensures
        height_rec(s, id, f1) == height_rec(s, id, f2),
    decreases k,
{
    let nodes = s[id].children.all@;
    assert forall|j: int|
        0 <= j < nodes.len() && (#[trigger] nodes[j]) is Element implies height_rec(
        s,
        nodes[j]->Element_0.0 as int,
        (f1 - 1) as nat,
    ) == height_rec(s, nodes[j]->Element_0.0 as int, (f2 - 1) as nat) by {
        let c = nodes[j]->Element_0.0 as int;
        assert(wf_element(s.len() as int, s[id]));
        assert(wf_node(s.len() as int, nodes[j]));
        assert(valid_id(s, c));
        assert(is_edge(s, id, c));
        let p2 = seq![id, c];
        assert(p2[0] == id && p2[1] == c);
        assert(is_path(s, p2) && p2.first() == id);
        assert(p2.len() <= k + 1);
        lemma_paths_bounded_child(s, id, c, k);
        lemma_height_fuel(s, c, (f1 - 1) as nat, (f2 - 1) as nat, (k - 1) as nat);
    }
    lemma_height_nodes_congr(s, nodes, (f1 - 1) as nat, (f2 - 1) as nat);
}

/// In an acyclic store no path repeats an element.
proof fn lemma_path_no_dup(s: Seq<Element>, p: Seq<int>)
    requires
        acyclic(s),
        is_path(s, p),
    ensures
        p.no_duplicates(),
{
    if !p.no_duplicates() {
        let (i, j) = choose|i: int, j: int| 0 <= i < j < p.len() && p[i] == p[j];
        lemma_path_subrange(s, p, i, j + 1);
        let q = p.subrange(i, j + 1);
        assert(q.len() >= 2);
        assert(is_edge(s, q[0], q[1]));
        lemma_path_subrange(s, p, i + 1, j + 1);
        let r = p.subrange(i + 1, j + 1);
        assert(r.first() == p[i + 1] && r.last() == p[j]);
        assert(q[1] == p[i + 1]);
        assert(reaches(s, p[i + 1], p[j]));
        assert(is_edge(s, p[i], p[i + 1]));
        assert(!reaches(s, p[i + 1], p[i]));
    }
}

/// In an acyclic store a path visits at most `s.len()` elements.
proof fn lemma_path_len_bound(s: Seq<Element>, p: Seq<int>)
    requires
        acyclic(s),
        is_path(s, p),
    ensures
        p.len() <= s.len(),
{
    lemma_path_no_dup(s, p);
    p.unique_seq_to_set();
    let range = vstd::set_lib::set_int_range(0, s.len() as int);
    vstd::set_lib::lemma_int_range(0, s.len() as int);
    assert(p.to_set().subset_of(range)) by {
        assert forall|x: int| p.to_set().contains(x) implies range.contains(x) by {
            assert(p.contains(x));
            let i = choose|i: int| 0 <= i < p.len() && p[i] == x;
            assert(valid_id(s, p[i]));
        }
    }
    vstd::set_lib::lemma_len_subset(p.to_set(), range);
}

/// A path that avoids one element of the store visits at most
/// `s.len() - 1` elements.
proof fn lemma_path_len_bound_avoiding(s: Seq<Element>, p: Seq<int>, x: int)
    requires
        acyclic(s),
        is_path(s, p),
        valid_id(s, x),
        forall|i: int| 0 <= i < p.len() ==> p[i] != x,
    ensures
        p.len() <= s.len() - 1,
{
    lemma_path_no_dup(s, p);
    p.unique_seq_to_set();
    let range = vstd::set_lib::set_int_range(0, s.len() as int).remove(x);
    vstd::set_lib::lemma_int_range(0, s.len() as int);
    assert(p.to_set().subset_of(range)) by {
        assert forall|y: int| p.to_set().contains(y) implies range.contains(y) by {
            assert(p.contains(y));
            let i = choose|i: int| 0 <= i < p.len() && p[i] == y;
            assert(valid_id(s, p[i]));
            assert(p[i] != x);
        }
    }
    vstd::set_lib::lemma_len_subset(p.to_set(), range);
}

/// A child sits strictly below its parent in height.
pub proof fn lemma_height_child_lt(s: Seq<Element>, a: int, c: int)
    requires
        wf_local(s),
        acyclic(s),
        is_edge(s, a, c),
    ensures
        valid_id(s, c),
        height(s, c) < height(s, a),
{
    let n = s.len() as int;
    let j = choose|j: int|
        0 <= j < s[a].children.all@.len() && (#[trigger] s[a].children.all@[j]) is Element
            && s[a].children.all@[j]->Element_0.0 == c;
    assert(wf_element(s.len() as int, s[a]));
    assert(wf_node(s.len() as int, s[a].children.all@[j]));
    assert(valid_id(s, c));
    if n == 1 {
        assert(a == 0 && c == 0);
        lemma_reaches_refl(s, c);
        assert(false);
    }
    assert(n >= 2);
    // height(a) >= 1 + height_rec(c, n - 1)
    lemma_height_nodes_ge(s, s[a].children.all@, (n - 1) as nat, j);
    assert(height(s, a) == 1 + height_nodes(s, s[a].children.all@, (n - 1) as nat));
    // paths from c avoid a
    assert forall|p: Seq<int>| #[trigger] is_path(s, p) && p.first() == c implies p.len() <= (n - 2)
        + 1 by {
        if exists|i: int| 0 <= i < p.len() && p[i] == a {
            let i = choose|i: int| 0 <= i < p.len() && p[i] == a;
            if i == 0 {
                assert(p.first() == a);
                lemma_reaches_refl(s, c);
                assert(reaches(s, c, a));
                assert(false);
            } else {
                lemma_path_subrange(s, p, 0, i + 1);
                assert(reaches(s, c, a));
                assert(false);
            }
        } else {
            lemma_path_len_bound_avoiding(s, p, a);
        }
    }
    assert(paths_bounded(s, c, (n - 2) as nat));
    lemma_height_fuel(s, c, (n - 1) as nat, n as nat, (n - 2) as nat);
    assert(height_rec(s, c, (n - 1) as nat) == height(s, c));
    assert(height(s, a) >= 1 + height(s, c));
}

// ===== Congruence: heights and reachability depend only on the child =====
// ===== structure =====

/// The two stores have equal length and equal child lists everywhere.
pub open spec fn same_shape(s1: Seq<Element>, s2: Seq<Element>) -> bool {
    &&& s1.len() == s2.len()
    &&& forall|i: int| 0 <= i < s1.len() ==> s1[i].children.all@ == (#[trigger] s2[i]).children.all@
}

/// Stores of the same shape have the same edges, paths, reachability and
/// acyclicity.
pub proof fn lemma_same_shape_graph(s1: Seq<Element>, s2: Seq<Element>)
    requires
        same_shape(s1, s2),
    ensures
        forall|a: int, b: int| is_edge(s1, a, b) == is_edge(s2, a, b),
        forall|p: Seq<int>| is_path(s1, p) == is_path(s2, p),
        forall|a: int, b: int| reaches(s1, a, b) == reaches(s2, a, b),
        acyclic(s1) == acyclic(s2),
{
    assert forall|a: int, b: int| is_edge(s1, a, b) == is_edge(s2, a, b) by {
        if is_edge(s1, a, b) {
            assert(s2[a].children.all@ == s1[a].children.all@);
            assert(is_edge(s2, a, b));
        }
        if is_edge(s2, a, b) {
            assert(s2[a].children.all@ == s1[a].children.all@);
            assert(is_edge(s1, a, b));
        }
    }
    assert forall|p: Seq<int>| is_path(s1, p) == is_path(s2, p) by {}
    assert forall|a: int, b: int| reaches(s1, a, b) == reaches(s2, a, b) by {
        if reaches(s1, a, b) {
            let p = choose|p: Seq<int>| is_path(s1, p) && p.first() == a && p.last() == b;
            assert(is_path(s2, p));
        }
        if reaches(s2, a, b) {
            let p = choose|p: Seq<int>| is_path(s2, p) && p.first() == a && p.last() == b;
            assert(is_path(s1, p));
        }
    }
}

/// Stores of the same shape give every element the same height.
pub proof fn lemma_same_shape_height(s1: Seq<Element>, s2: Seq<Element>, id: int, fuel: nat)
    requires
        same_shape(s1, s2),
    ensures
        height_rec(s1, id, fuel) == height_rec(s2, id, fuel),
    decreases fuel, 0nat, 0nat,
{
    if fuel > 0 && valid_id(s1, id) {
        assert(s1[id].children.all@ == s2[id].children.all@);
        lemma_same_shape_height_nodes(s1, s2, s1[id].children.all@, (fuel - 1) as nat);
    }
}

proof fn lemma_same_shape_height_nodes(s1: Seq<Element>, s2: Seq<Element>, nodes: Seq<Node>, fuel: nat)
    requires
        same_shape(s1, s2),
    ensures
        height_nodes(s1, nodes, fuel) == height_nodes(s2, nodes, fuel),
    decreases fuel, 1nat, nodes.len(),
{
    if nodes.len() > 0 {
        match nodes[0] {
            Node::Element(p) => {
                lemma_same_shape_height(s1, s2, p.0 as int, fuel);
            },
            Node::Text(_) => {},
        }
        lemma_same_shape_height_nodes(s1, s2, nodes.drop_first(), fuel);
    }
}

// ===== Extension: growing the store leaves the old part alone =====

/// `s2` extends `s1`: the elements of `s1` are unchanged in `s2`.
pub open spec fn extends(s1: Seq<Element>, s2: Seq<Element>) -> bool {
    &&& s1.len() <= s2.len()
    &&& forall|i: int| 0 <= i < s1.len() ==> s2[i] == s1[i]
}

/// In an extended store, a path starting at an old element stays among old
/// elements and is a path of the old store.
pub proof fn lemma_extend_path_old(s1: Seq<Element>, s2: Seq<Element>, p: Seq<int>)
    requires
        wf_local(s1),
        extends(s1, s2),
        is_path(s2, p),
        p.first() < s1.len(),
    ensures
        forall|i: int| 0 <= i < p.len() ==> #[trigger] p[i] < s1.len(),
        is_path(s1, p),
    decreases p.len(),
{
    if p.len() >= 2 {
        assert(is_edge(s2, p[0], p[1]));
        assert(s2[p[0]] == s1[p[0]]);
        let j = choose|j: int|
            0 <= j < s2[p[0]].children.all@.len() && (#[trigger] s2[p[0]].children.all@[j]) is Element
                && s2[p[0]].children.all@[j]->Element_0.0 == p[1];
        assert(wf_element(s1.len() as int, s1[p[0]]));
        assert(wf_node(s1.len() as int, s1[p[0]].children.all@[j]));
        assert(p[1] < s1.len());
        lemma_path_subrange(s2, p, 1, p.len() as int);
        lemma_extend_path_old(s1, s2, p.subrange(1, p.len() as int));
        assert forall|i: int| 0 <= i < p.len() implies #[trigger] p[i] < s1.len() by {
            if i >= 1 {
                assert(p.subrange(1, p.len() as int)[i - 1] == p[i]);
            }
        }
        assert forall|i: int| 0 <= i < p.len() - 1 implies is_edge(s1, #[trigger] p[i], p[i + 1]) by {
            if i == 0 {
                assert(is_edge(s2, p[0], p[1]));
                assert(is_edge(s1, p[0], p[1]));
            } else {
                let q = p.subrange(1, p.len() as int);
                assert(q[i - 1] == p[i] && q[i] == p[i + 1]);
                assert(is_edge(s1, q[i - 1], q[i]));
            }
        }
    }
}

/// Every path of the old store is a path of the extended store.
pub proof fn lemma_extend_path_new(s1: Seq<Element>, s2: Seq<Element>, p: Seq<int>)
    requires
        extends(s1, s2),
        is_path(s1, p),
    ensures
        is_path(s2, p),
{
    assert forall|i: int| 0 <= i < p.len() - 1 implies is_edge(s2, #[trigger] p[i], p[i + 1]) by {
        assert(is_edge(s1, p[i], p[i + 1]));
        assert(s2[p[i]] == s1[p[i]]);
    }
}

/// Reachability from old elements is unchanged by an extension.
pub proof fn lemma_extend_reaches(s1: Seq<Element>, s2: Seq<Element>, a: int, b: int)
    requires
        wf_local(s1),
        extends(s1, s2),
        a < s1.len(),
    ensures
        reaches(s2, a, b) == reaches(s1, a, b),
{
    if reaches(s2, a, b) {
        let p = choose|p: Seq<int>| is_path(s2, p) && p.first() == a && p.last() == b;
        lemma_extend_path_old(s1, s2, p);
    }
    if reaches(s1, a, b) {
        let p = choose|p: Seq<int>| is_path(s1, p) && p.first() == a && p.last() == b;
        lemma_extend_path_new(s1, s2, p);
    }
}

/// Heights of old elements are unchanged by an extension.
pub proof fn lemma_extend_height_rec(s1: Seq<Element>, s2: Seq<Element>, id: int, fuel: nat)
    requires
        wf_local(s1),
        extends(s1, s2),
        id < s1.len(),
    ensures
        height_rec(s2, id, fuel) == height_rec(s1, id, fuel),
    decreases fuel, 0nat, 0nat,
{
    if fuel > 0 && valid_id(s1, id) {
        assert(s2[id] == s1[id]);
        assert(wf_element(s1.len() as int, s1[id]));
        lemma_extend_height_nodes(s1, s2, s1[id].children.all@, (fuel - 1) as nat);
    }
}

proof fn lemma_extend_height_nodes(s1: Seq<Element>, s2: Seq<Element>, nodes: Seq<Node>, fuel: nat)
    requires
        wf_local(s1),
        extends(s1, s2),
        forall|j: int| 0 <= j < nodes.len() ==> wf_node(s1.len() as int, #[trigger] nodes[j]),
    ensures
        height_nodes(s2, nodes, fuel) == height_nodes(s1, nodes, fuel),
    decreases fuel, 1nat, nodes.len(),
{
    if nodes.len() > 0 {
        match nodes[0] {
            Node::Element(p) => {
                lemma_extend_height_rec(s1, s2, p.0 as int, fuel);
            },
            Node::Text(_) => {},
        }
        assert forall|j: int|
            0 <= j < nodes.drop_first().len() implies wf_node(
            s1.len() as int,
            #[trigger] nodes.drop_first()[j],
        ) by {
            assert(nodes.drop_first()[j] == nodes[j + 1]);
        }
        lemma_extend_height_nodes(s1, s2, nodes.drop_first(), fuel);
    }
}

/// The stable height of an old element is unchanged by an extension, as
/// long as the old store was acyclic.
pub proof fn lemma_extend_height(s1: Seq<Element>, s2: Seq<Element>, id: int)
    requires
        wf_local(s1),
        acyclic(s1),
        extends(s1, s2),
        0 <= id < s1.len(),
    ensures
        height(s2, id) == height(s1, id),
{
    lemma_extend_height_rec(s1, s2, id, s2.len() as nat);
    assert forall|p: Seq<int>| #[trigger] is_path(s1, p) && p.first() == id implies p.len() <= (
    s1.len() - 1) + 1 by {
        lemma_path_len_bound(s1, p);
    }
    assert(paths_bounded(s1, id, (s1.len() - 1) as nat));
    lemma_height_fuel(s1, id, s1.len() as nat, s2.len() as nat, (s1.len() - 1) as nat);
}

/// An extension whose new elements only point downwards stays acyclic.
pub proof fn lemma_extend_acyclic(s1: Seq<Element>, s2: Seq<Element>)
    requires
        wf_local(s1),
        acyclic(s1),
        extends(s1, s2),
        forall|a: int, b: int| #[trigger] is_edge(s2, a, b) && a >= s1.len() ==> b < a,
    ensures
        acyclic(s2),
{
    assert forall|a: int, b: int| #[trigger] is_edge(s2, a, b) implies !reaches(s2, b, a) by {
        if reaches(s2, b, a) {
            let p = choose|p: Seq<int>| is_path(s2, p) && p.first() == b && p.last() == a;
            if b < s1.len() {
                lemma_extend_path_old(s1, s2, p);
                assert(a < s1.len());
                assert(s2[a] == s1[a]);
                assert(is_edge(s1, a, b));
                assert(reaches(s1, b, a));
                assert(false);
            } else {
                // a must be new as well: edges of old elements point at old
                // elements.
                if a < s1.len() {
                    assert(s2[a] == s1[a]);
                    let j = choose|j: int|
                        0 <= j < s2[a].children.all@.len() && (#[trigger] s2[a].children.all@[j]) is Element
                            && s2[a].children.all@[j]->Element_0.0 == b;
                    assert(wf_element(s1.len() as int, s1[a]));
                    assert(wf_node(s1.len() as int, s1[a].children.all@[j]));
                    assert(false);
                }
                lemma_path_all_new(s1, s2, p);
                assert(p.last() <= p.first() - (p.len() - 1));
                if p.len() >= 2 {
                    assert(a < b);
                    assert(b < a);
                    assert(false);
                } else {
                    assert(a == b);
                    assert(b < a);
                    assert(false);
                }
            }
        }
    }
}

/// A path of the extended store that starts at a new element stays among
/// new elements and loses at least one per step.
proof fn lemma_path_all_new(s1: Seq<Element>, s2: Seq<Element>, p: Seq<int>)
    requires
        wf_local(s1),
        extends(s1, s2),
        is_path(s2, p),
        p.last() >= s1.len(),
        forall|a: int, b: int| #[trigger] is_edge(s2, a, b) && a >= s1.len() ==> b < a,
    ensures
        forall|i: int| 0 <= i < p.len() ==> #[trigger] p[i] >= s1.len(),
        p.last() <= p.first() - (p.len() - 1),
    decreases p.len(),
{
    if p.len() == 1 {
    } else {
        lemma_path_subrange(s2, p, 1, p.len() as int);
        let q = p.subrange(1, p.len() as int);
        lemma_path_all_new(s1, s2, q);
        assert forall|i: int| 0 <= i < p.len() implies #[trigger] p[i] >= s1.len() by {
            if i >= 1 {
                assert(q[i - 1] == p[i]);
            } else {
                // an old first element would have an old second element
                if p[0] < s1.len() {
                    assert(is_edge(s2, p[0], p[1]));
                    assert(s2[p[0]] == s1[p[0]]);
                    let j = choose|j: int|
                        0 <= j < s2[p[0]].children.all@.len() && (#[trigger] s2[p[0]].children.all@[j]) is Element
                            && s2[p[0]].children.all@[j]->Element_0.0 == p[1];
                    assert(wf_element(s1.len() as int, s1[p[0]]));
                    assert(wf_node(s1.len() as int, s1[p[0]].children.all@[j]));
                    assert(p[1] < s1.len());
                    assert(q[0] == p[1] && q[0] >= s1.len());
                    assert(false);
                }
            }
        }
        assert(is_edge(s2, p[0], p[1]));
        assert(p[1] < p[0]);
        assert(q.last() <= q.first() - (q.len() - 1));
    }
}

} // verus!


verus! {

/// Least index holding `x`, or -1.
spec fn first_at(p: Seq<int>, x: int) -> int
    decreases p.len(),
{
    if p.len() == 0 {
        -1
    } else if p[0] == x {
        0
    } else {
        let r = first_at(p.drop_first(), x);
        if r < 0 {
            -1
        } else {
            r + 1
        }
    }
}

proof fn lemma_first_at(p: Seq<int>, x: int)
    ensures
        first_at(p, x) >= -1,
        first_at(p, x) == -1 ==> (forall|i: int| 0 <= i < p.len() ==> p[i] != x),
        first_at(p, x) >= 0 ==> {
            &&& first_at(p, x) < p.len()
            &&& p[first_at(p, x)] == x
            &&& forall|i: int| 0 <= i < first_at(p, x) ==> p[i] != x
        },
    decreases p.len(),
{
    if p.len() > 0 && p[0] != x {
        lemma_first_at(p.drop_first(), x);
        assert forall|i: int| 1 <= i < p.len() implies p.drop_first()[i - 1] == p[i] by {}
    }
}

/// Greatest index holding `x`, or -1.
spec fn last_at(q: Seq<int>, x: int) -> int
    decreases q.len(),
{
    if q.len() == 0 {
        -1
    } else if q.last() == x {
        q.len() - 1
    } else {
        last_at(q.drop_last(), x)
    }
}

proof fn lemma_last_at(q: Seq<int>, x: int)
    ensures
        last_at(q, x) >= -1,
        last_at(q, x) == -1 ==> (forall|i: int| 0 <= i < q.len() ==> q[i] != x),
        last_at(q, x) >= 0 ==> {
            &&& last_at(q, x) < q.len()
            &&& q[last_at(q, x)] == x
            &&& forall|i: int| last_at(q, x) < i < q.len() ==> q[i] != x
        },
    decreases q.len(),
{
    if q.len() > 0 && q.last() != x {
        lemma_last_at(q.drop_last(), x);
        assert forall|i: int| 0 <= i < q.len() - 1 implies q.drop_last()[i] == q[i] by {}
    }
}

/// Reachability extended by one edge at its end.
pub proof fn lemma_reaches_append_edge(s: Seq<Element>, x: int, y: int, z: int)
    requires
        reaches(s, x, y),
        is_edge(s, y, z),
        valid_id(s, z),
    ensures
        reaches(s, x, z),
{
    let p = choose|p: Seq<int>| is_path(s, p) && p.first() == x && p.last() == y;
    let q = p.push(z);
    assert forall|i: int| 0 <= i < q.len() - 1 implies is_edge(s, #[trigger] q[i], q[i + 1]) by {
        if i < p.len() - 1 {
            assert(q[i] == p[i] && q[i + 1] == p[i + 1]);
        } else {
            assert(q[i] == p.last() && q[i + 1] == z);
        }
    }
    assert(is_path(s, q) && q.first() == x && q.last() == z);
}

/// A path of the changed store that never leaves from `parent` is a path of
/// the original store, and the other way round.
proof fn lemma_avoiding_path(s1: Seq<Element>, s2: Seq<Element>, parent: int, p: Seq<int>)
    requires
        s2.len() == s1.len(),
        forall|i: int|
            0 <= i < s1.len() && i != parent ==> (#[trigger] s2[i]).children.all@
                == s1[i].children.all@,
        forall|i: int| 0 <= i < p.len() - 1 ==> p[i] != parent,
    ensures
        is_path(s2, p) ==> is_path(s1, p),
        is_path(s1, p) ==> is_path(s2, p),
{
    if is_path(s2, p) {
        assert forall|i: int| 0 <= i < p.len() - 1 implies is_edge(s1, #[trigger] p[i], p[i + 1]) by {
            assert(is_edge(s2, p[i], p[i + 1]));
            assert(s2[p[i]].children.all@ == s1[p[i]].children.all@);
        }
    }
    if is_path(s1, p) {
        assert forall|i: int| 0 <= i < p.len() - 1 implies is_edge(s2, #[trigger] p[i], p[i + 1]) by {
            assert(is_edge(s1, p[i], p[i + 1]));
            assert(s2[p[i]].children.all@ == s1[p[i]].children.all@);
        }
    }
}

/// Replacing the children of one unprotected element keeps the store
/// acyclic, as long as none of the new children reaches that element.
pub proof fn lemma_children_change_acyclic(s1: Seq<Element>, s2: Seq<Element>, parent: int)
    requires
        acyclic(s1),
        valid_id(s1, parent),
        s2.len() == s1.len(),
        forall|i: int|
            0 <= i < s1.len() && i != parent ==> (#[trigger] s2[i]).children.all@
                == s1[i].children.all@,
        forall|c: int| #[trigger] is_edge(s2, parent, c) ==> c != parent && !reaches(s1, c, parent),
    ensures
        acyclic(s2),
{
    assert forall|a: int, b: int| #[trigger] is_edge(s2, a, b) implies !reaches(s2, b, a) by {
        if reaches(s2, b, a) {
            let p = choose|p: Seq<int>| is_path(s2, p) && p.first() == b && p.last() == a;
            // Whenever the path visits `parent`, its prefix gives an
            // original-store walk from `b` to `parent`.
            let m = first_at(p, parent);
            lemma_first_at(p, parent);
            if m >= 0 {
                if m == 0 {
                    lemma_reaches_refl(s1, b);
                } else {
                    lemma_path_subrange(s2, p, 0, m + 1);
                    let q = p.subrange(0, m + 1);
                    assert forall|i: int| 0 <= i < q.len() - 1 implies q[i] != parent by {
                        assert(q[i] == p[i]);
                    }
                    lemma_avoiding_path(s1, s2, parent, q);
                    assert(is_path(s1, q) && q.first() == b && q.last() == parent);
                }
                assert(reaches(s1, b, parent));
            }
            if a == parent {
                assert(m >= 0);
                assert(reaches(s1, b, parent));
                assert(is_edge(s2, parent, b));
                assert(false);
            } else {
                let srcs = p.take(p.len() - 1);
                let li = last_at(srcs, parent);
                lemma_last_at(srcs, parent);
                if li == -1 {
                    // the walk never leaves from `parent`
                    assert forall|i: int| 0 <= i < p.len() - 1 implies p[i] != parent by {
                        assert(srcs[i] == p[i]);
                    }
                    lemma_avoiding_path(s1, s2, parent, p);
                    assert(reaches(s1, b, a));
                    assert(is_edge(s1, a, b)) by {
                        assert(is_edge(s2, a, b));
                        assert(s2[a].children.all@ == s1[a].children.all@);
                    }
                    assert(false);
                } else {
                    // the walk last leaves `parent` into `c`; from there it
                    // stays off `parent` and runs to `a` in the old store
                    let c = p[li + 1];
                    assert(srcs[li] == p[li] && p[li] == parent);
                    assert(is_edge(s2, parent, c));
                    lemma_path_subrange(s2, p, li + 1, p.len() as int);
                    let r = p.subrange(li + 1, p.len() as int);
                    assert forall|i: int| 0 <= i < r.len() - 1 implies r[i] != parent by {
                        assert(r[i] == p[li + 1 + i]);
                        assert(srcs[li + 1 + i] == p[li + 1 + i]);
                    }
                    lemma_avoiding_path(s1, s2, parent, r);
                    assert(is_path(s1, r) && r.first() == c && r.last() == a);
                    assert(reaches(s1, c, a));
                    assert(is_edge(s1, a, b)) by {
                        assert(is_edge(s2, a, b));
                        assert(s2[a].children.all@ == s1[a].children.all@);
                    }
                    assert(valid_id(s1, b)) by {
                        assert(m >= 0);
                    }
                    lemma_reaches_append_edge(s1, c, a, b);
                    assert(m >= 0);
                    assert(reaches(s1, b, parent));
                    lemma_reaches_trans(s1, c, b, parent);
                    assert(false);
                }
            }
        }
    }
}

/// Stores of equal length and equal edges agree on paths, reachability,
/// and acyclicity.
pub proof fn lemma_edge_equiv_graph(s1: Seq<Element>, s2: Seq<Element>)
    requires
        s1.len() == s2.len(),
        forall|a: int, b: int| is_edge(s1, a, b) == is_edge(s2, a, b),
    ensures
        forall|p: Seq<int>| is_path(s1, p) == is_path(s2, p),
        forall|a: int, b: int| reaches(s1, a, b) == reaches(s2, a, b),
        acyclic(s1) == acyclic(s2),
{
    assert forall|a: int, b: int| reaches(s1, a, b) == reaches(s2, a, b) by {
        if reaches(s1, a, b) {
            let p = choose|p: Seq<int>| is_path(s1, p) && p.first() == a && p.last() == b;
            assert(is_path(s2, p));
        }
        if reaches(s2, a, b) {
            let p = choose|p: Seq<int>| is_path(s2, p) && p.first() == a && p.last() == b;
            assert(is_path(s1, p));
        }
    }
}

} // verus!

verus! {

/// The store that owns all elements. Handles index into it.
#[derive(Debug)]
pub struct ElementStore {
    pub els: Vec<Element>,
}

impl View for ElementStore {
    type V = Seq<Element>;

    open spec fn view(&self) -> Seq<Element> {
        self.els@
    }
}

/// Concatenation of the text nodes of a child list.
pub open spec fn texts_concat(nodes: Seq<Node>) -> Seq<char>
    decreases nodes.len(),
{
    if nodes.len() == 0 {
        Seq::empty()
    } else {
        match nodes[0] {
            Node::Text(s) => s@ + texts_concat(nodes.drop_first()),
            Node::Element(_) => texts_concat(nodes.drop_first()),
        }
    }
}

impl ElementStore {
    /// Full well-formedness of the store.
    pub open spec fn wf(self) -> bool {
        wf_store(self@)
    }

    /// The handle points at an element of this store.
    pub open spec fn valid(self, p: ElementPtr) -> bool {
        (p.0 as int) < self@.len()
    }

    /// An empty store.
    pub fn new() -> (r: ElementStore)
        ensures
            r@ =~= Seq::<Element>::empty(),
            r.wf(),
    {
        let r = ElementStore { els: Vec::new() };
        proof {
            assert forall|a: int, b: int| #[trigger] is_edge(r@, a, b) implies !reaches(r@, b, a) by {
                assert(!valid_id(r@, a));
            }
        }
        r
    }

    /// Read access to the element behind a handle.
    pub fn element(&self, p: ElementPtr) -> (r: &Element)
        requires
            self.valid(p),
        ensures
            r == self@[p.0 as int],
    {
        &self.els[p.0]
    }

    /// Number of child nodes of the element, texts included.
    pub fn len_of(&self, p: ElementPtr) -> (r: usize)
        requires
            self.valid(p),
        ensures
            r == self@[p.0 as int].children.all@.len(),
    {
        self.els[p.0].children.len()
    }

    /// Creates a fresh element with no children, unprotected.
    pub fn new_element_with_attr(
        &mut self,
        nsuri: Option<String>,
        name: String,
        attr: Option<AttributeMap>,
    ) -> (r: ElementPtr)
        requires
            old(self).wf(),
            validation::valid_name(name@),
            match nsuri {
                Option::Some(ns) => validation::valid_cdata(ns@),
                Option::None => true,
            },
            match attr {
                Option::Some(a) => a.wf(),
                Option::None => true,
            },
        ensures
            final(self).wf(),
            final(self)@.len() == old(self)@.len() + 1,
            r.0 == old(self)@.len(),
            extends(old(self)@, final(self)@),
            final(self)@[r.0 as int].nsuri == nsuri,
            final(self)@[r.0 as int].localname == name,
            final(self)@[r.0 as int].attr@ == match attr {
                Option::Some(a) => a@,
                Option::None => Seq::<(String, String)>::empty(),
            },
            final(self)@[r.0 as int].children.all@ =~= Seq::<Node>::empty(),
            final(self)@[r.0 as int].protected == false,
            height(final(self)@, r.0 as int) == 1,
            forall|x: int| !reaches(final(self)@, r.0 as int, x) || x == r.0 as int,
    {
        let ghost s1 = self@;
        let idx = self.els.len();
        let a = match attr {
            Some(a) => a,
            None => AttributeMap::new(),
        };
        let e = Element {
            nsuri,
            localname: name,
            attr: a,
            children: Children::new(),
            protected: false,
        };
        self.els.push(e);
        let ghost s2 = self@;
        proof {
            lemma_store_append_leaf(s1, s2);
            assert(height(s2, idx as int) == 1) by {
                assert(height_nodes(s2, s2[idx as int].children.all@, (s2.len() - 1) as nat) == 0);
            }
        }
        ElementPtr(idx)
    }

    /// Creates a fresh element with no attributes.
    pub fn new_element(&mut self, nsuri: Option<String>, name: String) -> (r: ElementPtr)
        requires
            old(self).wf(),
            validation::valid_name(name@),
            match nsuri {
                Option::Some(ns) => validation::valid_cdata(ns@),
                Option::None => true,
            },
        ensures
            final(self).wf(),
            final(self)@.len() == old(self)@.len() + 1,
            r.0 == old(self)@.len(),
            extends(old(self)@, final(self)@),
            final(self)@[r.0 as int].nsuri == nsuri,
            final(self)@[r.0 as int].localname == name,
            final(self)@[r.0 as int].attr@ =~= Seq::<(String, String)>::empty(),
            final(self)@[r.0 as int].children.all@ =~= Seq::<Node>::empty(),
            final(self)@[r.0 as int].protected == false,
    {
        self.new_element_with_attr(nsuri, name, None)
    }
}

/// Appending a childless, unprotected element preserves well-formedness; it
/// has no outgoing edges.
proof fn lemma_store_append_leaf(s1: Seq<Element>, s2: Seq<Element>)
    requires
        wf_store(s1),
        s2.len() == s1.len() + 1,
        forall|i: int| 0 <= i < s1.len() ==> s2[i] == s1[i],
        s2[s1.len() as int].children.all@.len() == 0,
        s2[s1.len() as int].children.wf(),
        s2[s1.len() as int].attr.wf(),
        validation::valid_name(s2[s1.len() as int].localname@),
        match s2[s1.len() as int].nsuri {
            Option::Some(ns) => validation::valid_cdata(ns@),
            Option::None => true,
        },
    ensures
        wf_store(s2),
        extends(s1, s2),
        forall|x: int| !reaches(s2, s1.len() as int, x) || x == s1.len(),
        forall|a: int, b: int| a < s1.len() ==> is_edge(s2, a, b) == is_edge(s1, a, b),
{
    let n1 = s1.len() as int;
    assert(wf_local(s2)) by {
        assert forall|i: int| 0 <= i < s2.len() implies wf_element(s2.len() as int, #[trigger] s2[i]) by {
            if i < n1 {
                assert(wf_element(n1, s1[i]));
                assert forall|j: int|
                    0 <= j < s2[i].children.all@.len() implies wf_node(
                    s2.len() as int,
                    #[trigger] s2[i].children.all@[j],
                ) by {
                    assert(wf_node(n1, s1[i].children.all@[j]));
                }
            }
        }
    }
    assert forall|a: int, b: int| a < n1 implies is_edge(s2, a, b) == is_edge(s1, a, b) by {
        if 0 <= a {
            assert(s2[a] == s1[a]);
            if is_edge(s2, a, b) {
                assert(is_edge(s1, a, b));
            }
            if is_edge(s1, a, b) {
                assert(is_edge(s2, a, b));
            }
        }
    }
    assert(acyclic(s2)) by {
        lemma_extend_acyclic(s1, s2);
    }
    assert(protected_closed(s2)) by {
        assert forall|a: int, b: int|
            #[trigger] is_edge(s2, a, b) && s2[a].protected implies s2[b].protected by {
            if a < n1 {
                assert(is_edge(s1, a, b));
                assert(s1[a].protected);
                assert(s1[b].protected);
                assert(wf_element(n1, s1[a]));
                let j = choose|j: int|
                    0 <= j < s1[a].children.all@.len() && (#[trigger] s1[a].children.all@[j]) is Element
                        && s1[a].children.all@[j]->Element_0.0 == b;
                assert(wf_node(n1, s1[a].children.all@[j]));
                assert(s2[b] == s1[b]);
            } else {
                assert(a == n1);
                assert(false);
            }
        }
    }
    assert forall|x: int| !reaches(s2, n1, x) || x == n1 by {
        if reaches(s2, n1, x) && x != n1 {
            lemma_reaches_unfold(s2, n1, x);
            let c = choose|c: int| is_edge(s2, n1, c) && #[trigger] reaches(s2, c, x);
            assert(false);
        }
    }
}

} // verus!

verus! {

/// Appending one node to `parent`'s child list adds exactly the edges of
/// that node.
proof fn lemma_edge_push(s1: Seq<Element>, s2: Seq<Element>, parent: int, n: Node)
    requires
        valid_id(s1, parent),
        s2.len() == s1.len(),
        forall|i: int|
            0 <= i < s1.len() && i != parent ==> (#[trigger] s2[i]).children.all@
                == s1[i].children.all@,
        s2[parent].children.all@ == s1[parent].children.all@.push(n),
    ensures
        forall|c: int|
            #[trigger] is_edge(s2, parent, c) <==> (is_edge(s1, parent, c) || (n is Element
                && n->Element_0.0 == c)),
        forall|a: int, c: int| a != parent ==> (is_edge(s2, a, c) <==> is_edge(s1, a, c)),
{
    let o = s1[parent].children.all@;
    let w = s2[parent].children.all@;
    assert forall|c: int|
        #[trigger] is_edge(s2, parent, c) <==> (is_edge(s1, parent, c) || (n is Element
            && n->Element_0.0 == c)) by {
        if is_edge(s2, parent, c) {
            let j = choose|j: int|
                0 <= j < w.len() && (#[trigger] w[j]) is Element && w[j]->Element_0.0 == c;
            if j < o.len() {
                assert(o[j] == w[j]);
                assert(is_edge(s1, parent, c));
            } else {
                assert(w[j] == n);
            }
        }
        if is_edge(s1, parent, c) {
            let j = choose|j: int|
                0 <= j < o.len() && (#[trigger] o[j]) is Element && o[j]->Element_0.0 == c;
            assert(w[j] == o[j]);
            assert(is_edge(s2, parent, c));
        }
        if n is Element && n->Element_0.0 == c {
            assert(w[o.len() as int] == n);
            assert(is_edge(s2, parent, c));
        }
    }
    assert forall|a: int, c: int| a != parent implies (is_edge(s2, a, c) <==> is_edge(
        s1,
        a,
        c,
    )) by {
        if 0 <= a < s1.len() {
            assert(s2[a].children.all@ == s1[a].children.all@);
        }
    }
}

impl ElementStore {
    /// True when the element is protected.
    pub fn is_protected(&self, p: ElementPtr) -> (r: bool)
        requires
            self.valid(p),
        ensures
            r == self@[p.0 as int].protected,
    {
        self.els[p.0].protected
    }

    /// Appends a text node to the element's children.
    pub fn text(&mut self, p: ElementPtr, t: String)
        requires
            old(self).wf(),
            old(self).valid(p),
            validation::valid_cdata(t@),
        ensures
            final(self).wf(),
            final(self)@.len() == old(self)@.len(),
            final(self)@[p.0 as int].children.all@ == old(self)@[p.0 as int].children.all@.push(
                Node::Text(t),
            ),
            final(self)@[p.0 as int].nsuri == old(self)@[p.0 as int].nsuri,
            final(self)@[p.0 as int].localname == old(self)@[p.0 as int].localname,
            final(self)@[p.0 as int].attr == old(self)@[p.0 as int].attr,
            final(self)@[p.0 as int].protected == old(self)@[p.0 as int].protected,
            forall|i: int|
                0 <= i < old(self)@.len() && i != p.0 as int ==> final(self)@[i] == old(self)@[i],
    {
        let ghost s1 = self@;
        let ghost n = Node::Text(t);
        self.els[p.0].children.push(Node::Text(t));
        let ghost s2 = self@;
        proof {
            lemma_edge_push(s1, s2, p.0 as int, n);
            assert forall|a: int, c: int| is_edge(s2, a, c) <==> is_edge(s1, a, c) by {
                if a == p.0 as int {
                    assert(is_edge(s2, a, c) <==> (is_edge(s1, a, c) || (n is Element
                        && n->Element_0.0 == c)));
                }
            }
            lemma_edge_equiv_graph(s1, s2);
            assert(wf_local(s2)) by {
                assert forall|i: int|
                    0 <= i < s2.len() implies wf_element(s2.len() as int, #[trigger] s2[i]) by {
                    assert(wf_element(s1.len() as int, s1[i]));
                    if i == p.0 as int {
                        assert forall|j: int|
                            0 <= j < s2[i].children.all@.len() implies wf_node(
                            s2.len() as int,
                            #[trigger] s2[i].children.all@[j],
                        ) by {
                            if j < s1[i].children.all@.len() {
                                assert(s2[i].children.all@[j] == s1[i].children.all@[j]);
                            } else {
                                assert(s2[i].children.all@[j] == n);
                            }
                        }
                    }
                }
            }
            assert(protected_closed(s2)) by {
                assert forall|a: int, b: int|
                    #[trigger] is_edge(s2, a, b) && s2[a].protected implies s2[b].protected by {
                    assert(is_edge(s1, a, b));
                    assert(s1[a].protected == s2[a].protected);
                    assert(s1[b].protected == s2[b].protected);
                }
            }
        }
    }

    /// Appends a fresh child element; an absent namespace is inherited from
    /// the parent, and a protected parent makes the child protected.
    pub fn tag(
        &mut self,
        parent: ElementPtr,
        xmlns: Option<String>,
        name: String,
        attr: Option<AttributeMap>,
    ) -> (r: ElementPtr)
        requires
            old(self).wf(),
            old(self).valid(parent),
            validation::valid_name(name@),
            match xmlns {
                Option::Some(ns) => validation::valid_cdata(ns@),
                Option::None => true,
            },
            match attr {
                Option::Some(a) => a.wf(),
                Option::None => true,
            },
        ensures
            final(self).wf(),
            final(self)@.len() == old(self)@.len() + 1,
            r.0 == old(self)@.len(),
            final(self)@[r.0 as int].nsuri == match xmlns {
                Option::Some(ns) => Option::Some(ns),
                Option::None => old(self)@[parent.0 as int].nsuri,
            },
            final(self)@[r.0 as int].localname == name,
            final(self)@[r.0 as int].attr@ == match attr {
                Option::Some(a) => a@,
                Option::None => Seq::<(String, String)>::empty(),
            },
            final(self)@[r.0 as int].children.all@ =~= Seq::<Node>::empty(),
            final(self)@[r.0 as int].protected == old(self)@[parent.0 as int].protected,
            final(self)@[parent.0 as int].children.all@ == old(self)@[parent.0 as int].children.all@.push(
                Node::Element(r),
            ),
            final(self)@[parent.0 as int].nsuri == old(self)@[parent.0 as int].nsuri,
            final(self)@[parent.0 as int].localname == old(self)@[parent.0 as int].localname,
            final(self)@[parent.0 as int].attr == old(self)@[parent.0 as int].attr,
            final(self)@[parent.0 as int].protected == old(self)@[parent.0 as int].protected,
            forall|i: int|
                0 <= i < old(self)@.len() && i != p_spec(parent) ==> final(self)@[i] == old(
                    self,
                )@[i],
    {
        let ghost s1 = self@;
        let ns = match xmlns {
            Some(ns) => Some(ns),
            None => match &self.els[parent.0].nsuri {
                Some(pns) => Some(pns.clone()),
                None => None,
            },
        };
        let child = self.new_element_with_attr(ns, name, attr);
        let prot = self.els[parent.0].protected;
        self.els[child.0].protected = prot;
        let ghost s2 = self@;
        proof {
            lemma_append_leaf_flagged(s1, s2, prot);
        }
        self.els[parent.0].children.push(Node::Element(child));
        let ghost s3 = self@;
        proof {
            lemma_edge_push(s2, s3, parent.0 as int, Node::Element(child));
            assert(wf_local(s3)) by {
                assert forall|i: int|
                    0 <= i < s3.len() implies wf_element(s3.len() as int, #[trigger] s3[i]) by {
                    assert(wf_element(s2.len() as int, s2[i]));
                    if i == parent.0 as int {
                        assert forall|j: int|
                            0 <= j < s3[i].children.all@.len() implies wf_node(
                            s3.len() as int,
                            #[trigger] s3[i].children.all@[j],
                        ) by {
                            if j < s2[i].children.all@.len() {
                                assert(s3[i].children.all@[j] == s2[i].children.all@[j]);
                            } else {
                                assert(s3[i].children.all@[j] == Node::Element(child));
                            }
                        }
                    }
                }
            }
            assert(acyclic(s3)) by {
                assert forall|c: int| #[trigger] is_edge(s3, parent.0 as int, c) implies c
                    != parent.0 as int && !reaches(s2, c, parent.0 as int) by {
                    if is_edge(s2, parent.0 as int, c) {
                        assert(!reaches(s2, c, parent.0 as int));
                        if c == parent.0 as int {
                            lemma_reaches_refl(s2, c);
                            assert(false);
                        }
                    } else {
                        assert(c == child.0 as int);
                        assert(!reaches(s2, c, parent.0 as int) || parent.0 as int == c);
                        assert(c != parent.0 as int);
                    }
                }
                lemma_children_change_acyclic(s2, s3, parent.0 as int);
            }
            assert(protected_closed(s3)) by {
                assert forall|a: int, b: int|
                    #[trigger] is_edge(s3, a, b) && s3[a].protected implies s3[b].protected by {
                    if a == parent.0 as int {
                        if is_edge(s2, a, b) {
                            assert(s2[a].protected ==> s2[b].protected);
                        } else {
                            assert(b == child.0 as int);
                            assert(s3[b].protected == s2[a].protected);
                        }
                    } else {
                        assert(is_edge(s2, a, b));
                        assert(s2[a].protected ==> s2[b].protected);
                    }
                }
            }
        }
        child
    }
}

/// Ghost shorthand for the index of a handle.
pub open spec fn p_spec(p: ElementPtr) -> int {
    p.0 as int
}

/// Setting the protection flag of the freshly appended childless element
/// keeps the store well formed; the element still reaches nothing.
proof fn lemma_append_leaf_flagged(s1: Seq<Element>, s2: Seq<Element>, prot: bool)
    requires
        wf_store(s1),
        s2.len() == s1.len() + 1,
        forall|i: int| 0 <= i < s1.len() ==> s2[i] == s1[i],
        s2[s1.len() as int].children.all@.len() == 0,
        s2[s1.len() as int].children.wf(),
        s2[s1.len() as int].attr.wf(),
        validation::valid_name(s2[s1.len() as int].localname@),
        match s2[s1.len() as int].nsuri {
            Option::Some(ns) => validation::valid_cdata(ns@),
            Option::None => true,
        },
    ensures
        wf_store(s2),
        extends(s1, s2),
        forall|x: int| !reaches(s2, s1.len() as int, x) || x == s1.len(),
        forall|a: int, b: int| a < s1.len() ==> is_edge(s2, a, b) == is_edge(s1, a, b),
{
    lemma_store_append_leaf(s1, s2);
}

} // verus!

verus! {

impl ElementStore {
    /// Depth-first search: does `target` lie in the subtree of `from`?
    #[verifier::loop_isolation(false)]
    fn subtree_reaches(&self, from: ElementPtr, target: ElementPtr) -> (r: bool)
        requires
            self.wf(),
            self.valid(from),
            self.valid(target),
        ensures
            r == reaches(self@, from.0 as int, target.0 as int),
        decreases height(self@, from.0 as int),
    {
        if from.0 == target.0 {
            proof {
                lemma_reaches_refl(self@, from.0 as int);
            }
            return true;
        }
        let n = self.els[from.0].children.len();
        let mut j: usize = 0;
        while j < n
            invariant
                j <= n,
                forall|j2: int|
                    0 <= j2 < j && (#[trigger] self@[from.0 as int].children.all@[j2]) is Element
                        ==> !reaches(
                        self@,
                        self@[from.0 as int].children.all@[j2]->Element_0.0 as int,
                        target.0 as int,
                    ),
            decreases n - j,
        {
            let node = &self.els[from.0].children.all[j];
            match node {
                Node::Element(c) => {
                    proof {
                        assert(wf_element(self@.len() as int, self@[from.0 as int]));
                        assert(wf_node(self@.len() as int, self@[from.0 as int].children.all@[j as int]));
                        assert(is_edge(self@, from.0 as int, c.0 as int));
                        lemma_height_child_lt(self@, from.0 as int, c.0 as int);
                    }
                    if self.subtree_reaches(*c, target) {
                        proof {
                            lemma_reaches_step(self@, from.0 as int, c.0 as int, target.0 as int);
                        }
                        return true;
                    }
                },
                Node::Text(_) => {},
            }
            j = j + 1;
        }
        proof {
            if reaches(self@, from.0 as int, target.0 as int) {
                lemma_reaches_unfold(self@, from.0 as int, target.0 as int);
                let c = choose|c: int|
                    is_edge(self@, from.0 as int, c) && #[trigger] reaches(
                        self@,
                        c,
                        target.0 as int,
                    );
                let j2 = choose|j2: int|
                    0 <= j2 < self@[from.0 as int].children.all@.len() && (#[trigger] self@[from.0 as int].children.all@[j2]) is Element
                        && self@[from.0 as int].children.all@[j2]->Element_0.0 == c;
                assert(false);
            }
        }
        false
    }

    /// The insertion check: refuses inserting the parent itself and any
    /// element whose subtree holds the parent. A protected element is
    /// accepted outright: its whole subtree is protected, and the parent,
    /// being mutable, cannot lie inside it.
    fn check_insert(&self, parent: ElementPtr, el: ElementPtr) -> (r: Result<(), InsertError>)
        requires
            self.wf(),
            self.valid(parent),
            self.valid(el),
            !self@[parent.0 as int].protected,
        ensures
            match r {
                Result::Ok(()) => el.0 != parent.0 && !reaches(self@, el.0 as int, parent.0 as int),
                Result::Err(e) => match e {
                    InsertError::NodeIsSelf => el.0 == parent.0,
                    InsertError::LoopDetected => el.0 != parent.0 && reaches(
                        self@,
                        el.0 as int,
                        parent.0 as int,
                    ),
                    _ => false,
                },
            },
    {
        if el.0 == parent.0 {
            return Err(InsertError::NodeIsSelf);
        }
        if self.els[el.0].protected {
            proof {
                if reaches(self@, el.0 as int, parent.0 as int) {
                    lemma_protected_reachable(self@, el.0 as int, parent.0 as int);
                }
            }
            return Ok(());
        }
        if self.subtree_reaches(el, parent) {
            return Err(InsertError::LoopDetected);
        }
        Ok(())
    }

    /// Inserts an existing node under `parent`, refusing protected parents,
    /// self-insertion, and insertions that would close a cycle.
    pub fn push(&mut self, parent: ElementPtr, n: Node) -> (r: Result<(), InsertError>)
        requires
            old(self).wf(),
            old(self).valid(parent),
            wf_node(old(self)@.len() as int, n),
        ensures
            final(self).wf(),
            match r {
                Result::Ok(()) => {
                    &&& !old(self)@[parent.0 as int].protected
                    &&& (n is Element ==> n->Element_0.0 != parent.0 && !reaches(
                        old(self)@,
                        n->Element_0.0 as int,
                        parent.0 as int,
                    ))
                    &&& final(self)@.len() == old(self)@.len()
                    &&& final(self)@[parent.0 as int].children.all@ == old(
                        self,
                    )@[parent.0 as int].children.all@.push(n)
                    &&& final(self)@[parent.0 as int].nsuri == old(self)@[parent.0 as int].nsuri
                    &&& final(self)@[parent.0 as int].localname == old(
                        self,
                    )@[parent.0 as int].localname
                    &&& final(self)@[parent.0 as int].attr == old(self)@[parent.0 as int].attr
                    &&& final(self)@[parent.0 as int].protected == old(
                        self,
                    )@[parent.0 as int].protected
                    &&& forall|i: int|
                        0 <= i < old(self)@.len() && i != parent.0 as int ==> final(self)@[i] == old(
                            self,
                        )@[i]
                },
                Result::Err(e) => final(self)@ == old(self)@ && match e {
                    InsertError::Protected => old(self)@[parent.0 as int].protected,
                    InsertError::NodeIsSelf => !old(self)@[parent.0 as int].protected && n is Element
                        && n->Element_0.0 == parent.0,
                    InsertError::LoopDetected => !old(self)@[parent.0 as int].protected
                        && n is Element && n->Element_0.0 != parent.0 && reaches(
                        old(self)@,
                        n->Element_0.0 as int,
                        parent.0 as int,
                    ),
                    InsertError::NodeHasParent => false,
                },
            },
    {
        if self.els[parent.0].protected {
            return Err(InsertError::Protected);
        }
        if let Node::Element(el) = &n {
            match self.check_insert(parent, *el) {
                Ok(()) => {},
                Err(e) => {
                    return Err(e);
                },
            }
        }
        let ghost s1 = self@;
        self.els[parent.0].children.push(n);
        let ghost s2 = self@;
        proof {
            lemma_edge_push(s1, s2, parent.0 as int, n);
            assert(wf_local(s2)) by {
                assert forall|i: int|
                    0 <= i < s2.len() implies wf_element(s2.len() as int, #[trigger] s2[i]) by {
                    assert(wf_element(s1.len() as int, s1[i]));
                    if i == parent.0 as int {
                        assert forall|j: int|
                            0 <= j < s2[i].children.all@.len() implies wf_node(
                            s2.len() as int,
                            #[trigger] s2[i].children.all@[j],
                        ) by {
                            if j < s1[i].children.all@.len() {
                                assert(s2[i].children.all@[j] == s1[i].children.all@[j]);
                            } else {
                                assert(s2[i].children.all@[j] == n);
                            }
                        }
                    }
                }
            }
            assert(acyclic(s2)) by {
                assert forall|c: int| #[trigger] is_edge(s2, parent.0 as int, c) implies c
                    != parent.0 as int && !reaches(s1, c, parent.0 as int) by {
                    if is_edge(s1, parent.0 as int, c) {
                        assert(!reaches(s1, c, parent.0 as int));
                        if c == parent.0 as int {
                            lemma_reaches_refl(s1, c);
                            assert(false);
                        }
                    } else {
                        assert(n is Element && n->Element_0.0 == c);
                    }
                }
                lemma_children_change_acyclic(s1, s2, parent.0 as int);
            }
            assert(protected_closed(s2)) by {
                assert forall|a: int, b: int|
                    #[trigger] is_edge(s2, a, b) && s2[a].protected implies s2[b].protected by {
                    if a == parent.0 as int {
                        assert(!s1[a].protected);
                        assert(false);
                    } else {
                        assert(is_edge(s1, a, b));
                        assert(s1[a].protected ==> s1[b].protected);
                    }
                }
            }
        }
        Ok(())
    }

    /// When the element has no element children, the concatenation of its
    /// text nodes; otherwise nothing.
    #[verifier::loop_isolation(false)]
    pub fn get_text(&self, p: ElementPtr) -> (r: Option<String>)
        requires
            self.wf(),
            self.valid(p),
        ensures
            match r {
                Option::Some(s) => (forall|j: int|
                    0 <= j < self@[p.0 as int].children.all@.len() ==> !((
                    #[trigger] self@[p.0 as int].children.all@[j]) is Element)) && s@ == texts_concat(
                    self@[p.0 as int].children.all@,
                ),
                Option::None => exists|j: int|
                    0 <= j < self@[p.0 as int].children.all@.len() && (
                    #[trigger] self@[p.0 as int].children.all@[j]) is Element,
            },
    {
        let ghost nodes = self@[p.0 as int].children.all@;
        let nlen = self.els[p.0].children.all.len();
        if self.els[p.0].children.element_indices.len() > 0 {
            proof {
                assert(wf_element(self@.len() as int, self@[p.0 as int]));
                lemma_elem_positions(nodes);
                let q = elem_positions(nodes)[0];
                assert(nodes[q as int] is Element);
            }
            return None;
        }
        proof {
            assert(wf_element(self@.len() as int, self@[p.0 as int]));
            lemma_elem_positions(nodes);
            assert forall|j: int| 0 <= j < nodes.len() implies !((#[trigger] nodes[j]) is Element) by {
                if nodes[j] is Element {
                    let i = choose|i: int|
                        0 <= i < elem_positions(nodes).len() && (#[trigger] elem_positions(nodes)[i])
                            == j;
                }
            }
        }
        let mut out = String::new();
        let n = self.els[p.0].children.all.len();
        let mut j: usize = 0;
        while j < n
            invariant
                j <= n,
                out@ == texts_concat(nodes.take(j as int)),
            decreases n - j,
        {
            proof {
                lemma_texts_concat_take(nodes, j as int);
            }
            match &self.els[p.0].children.all[j] {
                Node::Text(s) => {
                    vstd::string::StringExecFns::append(&mut out, s.as_str());
                },
                Node::Element(_) => {
                    proof {
                        assert(false);
                    }
                },
            }
            j = j + 1;
        }
        proof {
            assert(nodes.take(n as int) =~= nodes);
        }
        Some(out)
    }
}

/// One more step of the text concatenation.
proof fn lemma_texts_concat_take(nodes: Seq<Node>, j: int)
    requires
        0 <= j < nodes.len(),
    ensures
        texts_concat(nodes.take(j + 1)) == if nodes[j] is Text {
            texts_concat(nodes.take(j)) + nodes[j]->Text_0@
        } else {
            texts_concat(nodes.take(j))
        },
    decreases j,
{
    if j == 0 {
        assert(nodes.take(1)[0] == nodes[0]);
        assert(nodes.take(1).drop_first() =~= nodes.take(0));
        if nodes[0] is Text {
            assert(texts_concat(nodes.take(1)) == nodes[0]->Text_0@ + texts_concat(nodes.take(0)));
            assert(texts_concat(nodes.take(0)) =~= Seq::<char>::empty());
            assert(nodes[0]->Text_0@ + Seq::<char>::empty() =~= nodes[0]->Text_0@);
            assert(texts_concat(nodes.take(0)) + nodes[0]->Text_0@ =~= nodes[0]->Text_0@);
        }
    } else {
        lemma_texts_concat_take(nodes.drop_first(), j - 1);
        assert(nodes.take(j + 1)[0] == nodes[0]);
        assert(nodes.take(j + 1).drop_first() =~= nodes.drop_first().take(j));
        assert(nodes.take(j).drop_first() =~= nodes.drop_first().take(j - 1));
        assert(nodes.drop_first()[j - 1] == nodes[j]);
        if nodes[0] is Text {
            if nodes[j] is Text {
                assert(nodes[0]->Text_0@ + (texts_concat(nodes.drop_first().take(j - 1))
                    + nodes[j]->Text_0@) =~= (nodes[0]->Text_0@ + texts_concat(
                    nodes.drop_first().take(j - 1),
                )) + nodes[j]->Text_0@);
            }
        }
    }
}

} // verus!

verus! {

impl ElementStore {
    /// Sets the protection flag on the element and its whole subtree.
    #[verifier::loop_isolation(false)]
    fn protect_rec(&mut self, id: ElementPtr)
        requires
            old(self).wf(),
            old(self).valid(id),
        ensures
            final(self).wf(),
            final(self)@.len() == old(self)@.len(),
            forall|i: int|
                0 <= i < old(self)@.len() ==> {
                    &&& (#[trigger] final(self)@[i]).nsuri == old(self)@[i].nsuri
                    &&& final(self)@[i].localname == old(self)@[i].localname
                    &&& final(self)@[i].attr == old(self)@[i].attr
                    &&& final(self)@[i].children == old(self)@[i].children
                    &&& final(self)@[i].protected == (old(self)@[i].protected || reaches(
                        old(self)@,
                        id.0 as int,
                        i,
                    ))
                },
        decreases height(old(self)@, id.0 as int),
    {
        let ghost orig = self@;
        let ghost nodes = orig[id.0 as int].children.all@;
        let n = self.els[id.0].children.all.len();
        let mut j: usize = 0;
        while j < n
            invariant
                j <= n,
                self.wf(),
                self@.len() == orig.len(),
                self@[id.0 as int].children.all@ == nodes,
                forall|i: int|
                    0 <= i < orig.len() ==> {
                        &&& (#[trigger] self@[i]).nsuri == orig[i].nsuri
                        &&& self@[i].localname == orig[i].localname
                        &&& self@[i].attr == orig[i].attr
                        &&& self@[i].children == orig[i].children
                        &&& self@[i].protected == (orig[i].protected || exists|j2: int|
                            0 <= j2 < j && (#[trigger] nodes[j2]) is Element && reaches(
                                orig,
                                nodes[j2]->Element_0.0 as int,
                                i,
                            ))
                    },
            decreases n - j,
        {
            proof {
                assert(same_shape(orig, self@));
                lemma_same_shape_graph(orig, self@);
            }
            let node = self.els[id.0].children.all[j].duplicate();
            match node {
                Node::Element(c) => {
                    proof {
                        assert(wf_element(orig.len() as int, orig[id.0 as int]));
                        assert(wf_node(orig.len() as int, nodes[j as int]));
                        assert(is_edge(orig, id.0 as int, c.0 as int));
                        lemma_height_child_lt(orig, id.0 as int, c.0 as int);
                        lemma_same_shape_height(orig, self@, c.0 as int, orig.len() as nat);
                    }
                    let ghost mid = self@;
                    self.protect_rec(c);
                    proof {
                        lemma_same_shape_graph(orig, mid);
                        assert forall|i: int| 0 <= i < orig.len() implies (
                        #[trigger] self@[i]).protected == (orig[i].protected || exists|j2: int|
                            0 <= j2 < j + 1 && (#[trigger] nodes[j2]) is Element && reaches(
                                orig,
                                nodes[j2]->Element_0.0 as int,
                                i,
                            )) by {
                            if self@[i].protected {
                                if mid[i].protected {
                                    if !orig[i].protected {
                                        let j2 = choose|j2: int|
                                            0 <= j2 < j && (#[trigger] nodes[j2]) is Element
                                                && reaches(orig, nodes[j2]->Element_0.0 as int, i);
                                        assert(0 <= j2 < j + 1);
                                    }
                                } else {
                                    assert(reaches(mid, c.0 as int, i));
                                    assert(reaches(orig, c.0 as int, i));
                                    assert(nodes[j as int] is Element
                                        && nodes[j as int]->Element_0.0 == c.0 as int);
                                }
                            } else {
                                assert(!mid[i].protected);
                                assert(!orig[i].protected);
                                assert forall|j2: int|
                                    0 <= j2 < j + 1 && (#[trigger] nodes[j2]) is Element implies !reaches(
                                    orig,
                                    nodes[j2]->Element_0.0 as int,
                                    i,
                                ) by {
                                    if j2 < j {
                                        assert(!mid[i].protected);
                                    } else {
                                        assert(nodes[j2]->Element_0 == c);
                                        assert(!reaches(mid, c.0 as int, i));
                                        assert(!reaches(orig, c.0 as int, i));
                                    }
                                }
                            }
                        }
                    }
                },
                Node::Text(_) => {
                    proof {
                        assert forall|i: int| 0 <= i < orig.len() implies (
                        #[trigger] self@[i]).protected == (orig[i].protected || exists|j2: int|
                            0 <= j2 < j + 1 && (#[trigger] nodes[j2]) is Element && reaches(
                                orig,
                                nodes[j2]->Element_0.0 as int,
                                i,
                            )) by {
                            if self@[i].protected && !orig[i].protected {
                                let j2 = choose|j2: int|
                                    0 <= j2 < j && (#[trigger] nodes[j2]) is Element && reaches(
                                        orig,
                                        nodes[j2]->Element_0.0 as int,
                                        i,
                                    );
                                assert(0 <= j2 < j + 1);
                            }
                        }
                    }
                },
            }
            j = j + 1;
        }
        let ghost mid = self@;
        self.els[id.0].protected = true;
        proof {
            let ghost fin = self@;
            assert(same_shape(orig, fin));
            lemma_same_shape_graph(orig, fin);
            lemma_same_shape_graph(orig, mid);
            // the flag of each element now matches reachability from `id`
            assert forall|i: int| 0 <= i < orig.len() implies (#[trigger] fin[i]).protected == (
            orig[i].protected || reaches(orig, id.0 as int, i)) by {
                if i == id.0 as int {
                    lemma_reaches_refl(orig, i);
                } else {
                    assert(fin[i].protected == mid[i].protected);
                    if reaches(orig, id.0 as int, i) {
                        lemma_reaches_unfold(orig, id.0 as int, i);
                        let c = choose|c: int|
                            is_edge(orig, id.0 as int, c) && #[trigger] reaches(orig, c, i);
                        let j2 = choose|j2: int|
                            0 <= j2 < nodes.len() && (#[trigger] nodes[j2]) is Element
                                && nodes[j2]->Element_0.0 == c;
                        assert(mid[i].protected);
                    }
                    if mid[i].protected && !orig[i].protected {
                        let j2 = choose|j2: int|
                            0 <= j2 < n && (#[trigger] nodes[j2]) is Element && reaches(
                                orig,
                                nodes[j2]->Element_0.0 as int,
                                i,
                            );
                        let c = nodes[j2]->Element_0.0 as int;
                        assert(is_edge(orig, id.0 as int, c));
                        assert(wf_element(orig.len() as int, orig[id.0 as int]));
                        assert(wf_node(orig.len() as int, nodes[j2]));
                        lemma_reaches_step(orig, id.0 as int, c, i);
                    }
                }
            }
            // protection stays closed under edges
            assert(protected_closed(fin)) by {
                assert forall|a: int, b: int|
                    #[trigger] is_edge(fin, a, b) && fin[a].protected implies fin[b].protected by {
                    assert(is_edge(orig, a, b));
                    assert(wf_element(orig.len() as int, orig[a]));
                    let j2 = choose|j2: int|
                        0 <= j2 < orig[a].children.all@.len() && (
                        #[trigger] orig[a].children.all@[j2]) is Element
                            && orig[a].children.all@[j2]->Element_0.0 == b;
                    assert(wf_node(orig.len() as int, orig[a].children.all@[j2]));
                    if orig[a].protected {
                        assert(orig[b].protected);
                    } else {
                        assert(reaches(orig, id.0 as int, a));
                        lemma_reaches_append_edge(orig, id.0 as int, a, b);
                    }
                }
            }
        }
    }

    /// Recursively protects the subtree rooted at `p`: the element and all
    /// of its descendants become immutable for `push` and `map_elements`.
    pub fn protect(&mut self, p: ElementPtr) -> (r: Result<(), ProtectError>)
        requires
            old(self).wf(),
            old(self).valid(p),
        ensures
            final(self).wf(),
            r is Ok,
            final(self)@.len() == old(self)@.len(),
            forall|i: int|
                0 <= i < old(self)@.len() ==> {
                    &&& (#[trigger] final(self)@[i]).nsuri == old(self)@[i].nsuri
                    &&& final(self)@[i].localname == old(self)@[i].localname
                    &&& final(self)@[i].attr == old(self)@[i].attr
                    &&& final(self)@[i].children == old(self)@[i].children
                    &&& final(self)@[i].protected == (old(self)@[i].protected || reaches(
                        old(self)@,
                        p.0 as int,
                        i,
                    ))
                },
    {
        self.protect_rec(p);
        Ok(())
    }
}

} // verus!

verus! {

/// The namespace URIs are both absent or have equal text.
pub open spec fn ns_equiv(x: Option<String>, y: Option<String>) -> bool {
    match (x, y) {
        (Option::Some(a), Option::Some(b)) => a@ == b@,
        (Option::None, Option::None) => true,
        _ => false,
    }
}

/// Structural equality of two elements: equal names, namespaces and
/// attribute mappings, and pairwise structurally equal children. The
/// `protected` flag is ignored.
pub open spec fn deep_equal(s1: Seq<Element>, a: int, s2: Seq<Element>, b: int) -> bool
    decreases height(s1, a), s1[a].children.all@.len() + 1,
    when wf_local(s1) && acyclic(s1) && valid_id(s1, a)
    via deep_equal_decreases
{
    &&& valid_id(s1, a)
    &&& valid_id(s2, b)
    &&& s1[a].localname@ == s2[b].localname@
    &&& ns_equiv(s1[a].nsuri, s2[b].nsuri)
    &&& crate::attrstr::attrs_equiv(s1[a].attr@, s2[b].attr@)
    &&& s1[a].children.all@.len() == s2[b].children.all@.len()
    &&& deep_equal_upto(s1, a, s2, b, s1[a].children.all@.len() as int)
}

/// The first `k` children of the two elements match pairwise.
pub open spec fn deep_equal_upto(s1: Seq<Element>, a: int, s2: Seq<Element>, b: int, k: int) -> bool
    decreases height(s1, a), k,
    when wf_local(s1) && acyclic(s1) && valid_id(s1, a) && k <= s1[a].children.all@.len()
    via deep_equal_upto_decreases
{
    if k <= 0 {
        true
    } else {
        &&& deep_equal_upto(s1, a, s2, b, k - 1)
        &&& valid_id(s2, b)
        &&& k <= s2[b].children.all@.len()
        &&& match (s1[a].children.all@[k - 1], s2[b].children.all@[k - 1]) {
            (Node::Text(t1), Node::Text(t2)) => t1@ == t2@,
            (Node::Element(c1), Node::Element(c2)) => deep_equal(
                s1,
                c1.0 as int,
                s2,
                c2.0 as int,
            ),
            _ => false,
        }
    }
}

#[via_fn]
proof fn deep_equal_decreases(s1: Seq<Element>, a: int, s2: Seq<Element>, b: int) {
}

#[via_fn]
proof fn deep_equal_upto_decreases(s1: Seq<Element>, a: int, s2: Seq<Element>, b: int, k: int) {
    if k > 0 {
        match (s1[a].children.all@[k - 1], s2[b].children.all@[k - 1]) {
            (Node::Element(c1), Node::Element(c2)) => {
                assert(is_edge(s1, a, c1.0 as int));
                lemma_height_child_lt(s1, a, c1.0 as int);
            },
            _ => {},
        }
    }
}

/// Pairwise matching children up to `k`, spelled out per index.
pub proof fn lemma_deep_equal_upto_elim(s1: Seq<Element>, a: int, s2: Seq<Element>, b: int, k: int, j: int)
    requires
        wf_local(s1),
        acyclic(s1),
        valid_id(s1, a),
        k <= s1[a].children.all@.len(),
        deep_equal_upto(s1, a, s2, b, k),
        0 <= j < k,
    ensures
        valid_id(s2, b),
        j < s2[b].children.all@.len(),
        match (s1[a].children.all@[j], s2[b].children.all@[j]) {
            (Node::Text(t1), Node::Text(t2)) => t1@ == t2@,
            (Node::Element(c1), Node::Element(c2)) => deep_equal(s1, c1.0 as int, s2, c2.0 as int),
            _ => false,
        },
    decreases k,
{
    if j < k - 1 {
        lemma_deep_equal_upto_elim(s1, a, s2, b, k - 1, j);
    }
}

/// Pairwise matching children up to `k`, assembled from per-index facts.
pub proof fn lemma_deep_equal_upto_intro(s1: Seq<Element>, a: int, s2: Seq<Element>, b: int, k: int)
    requires
        wf_local(s1),
        acyclic(s1),
        valid_id(s1, a),
        valid_id(s2, b),
        0 <= k <= s1[a].children.all@.len(),
        k <= s2[b].children.all@.len(),
        forall|j: int|
            0 <= j < k ==> match (#[trigger] s1[a].children.all@[j], s2[b].children.all@[j]) {
                (Node::Text(t1), Node::Text(t2)) => t1@ == t2@,
                (Node::Element(c1), Node::Element(c2)) => deep_equal(
                    s1,
                    c1.0 as int,
                    s2,
                    c2.0 as int,
                ),
                _ => false,
            },
    ensures
        deep_equal_upto(s1, a, s2, b, k),
    decreases k,
{
    if k > 0 {
        lemma_deep_equal_upto_intro(s1, a, s2, b, k - 1);
    }
}

/// Extending the store does not change structural equality of old elements.
pub proof fn lemma_extend_deep_equal(s1: Seq<Element>, s2: Seq<Element>, a: int, b: int)
    requires
        wf_local(s1),
        acyclic(s1),
        wf_local(s2),
        acyclic(s2),
        extends(s1, s2),
        0 <= a < s1.len(),
        0 <= b < s1.len(),
    ensures
        deep_equal(s2, a, s2, b) == deep_equal(s1, a, s1, b),
    decreases height(s1, a),
{
    assert(s2[a] == s1[a]);
    assert(s2[b] == s1[b]);
    let n = s1[a].children.all@.len() as int;
    assert(wf_element(s1.len() as int, s1[a]));
    assert(wf_element(s1.len() as int, s1[b]));
    if deep_equal(s2, a, s2, b) {
        lemma_extend_deep_equal_upto(s1, s2, a, b, n, true);
    }
    if deep_equal(s1, a, s1, b) {
        lemma_extend_deep_equal_upto(s1, s2, a, b, n, false);
    }
}

/// One direction of the child-list transfer between the two stores.
proof fn lemma_extend_deep_equal_upto(s1: Seq<Element>, s2: Seq<Element>, a: int, b: int, k: int, down: bool)
    requires
        wf_local(s1),
        acyclic(s1),
        wf_local(s2),
        acyclic(s2),
        extends(s1, s2),
        0 <= a < s1.len(),
        0 <= b < s1.len(),
        k <= s1[a].children.all@.len(),
        down ==> deep_equal_upto(s2, a, s2, b, k),
        !down ==> deep_equal_upto(s1, a, s1, b, k),
    ensures
        down ==> deep_equal_upto(s1, a, s1, b, k),
        !down ==> deep_equal_upto(s2, a, s2, b, k),
    decreases height(s1, a), k,
{
    assert(s2[a] == s1[a]);
    assert(s2[b] == s1[b]);
    if k > 0 {
        lemma_extend_deep_equal_upto(s1, s2, a, b, k - 1, down);
        match (s1[a].children.all@[k - 1], s1[b].children.all@[k - 1]) {
            (Node::Element(c1), Node::Element(c2)) => {
                assert(is_edge(s1, a, c1.0 as int));
                lemma_height_child_lt(s1, a, c1.0 as int);
                assert(wf_element(s1.len() as int, s1[a]));
                assert(wf_node(s1.len() as int, s1[a].children.all@[k - 1]));
                assert(wf_element(s1.len() as int, s1[b]));
                assert(wf_node(s1.len() as int, s1[b].children.all@[k - 1]));
                lemma_extend_deep_equal(s1, s2, c1.0 as int, c2.0 as int);
            },
            _ => {},
        }
    }
}

/// Nothing reachable from `id` is protected.
pub open spec fn subtree_unprotected(s: Seq<Element>, id: int) -> bool {
    forall|x: int| #[trigger] reaches(s, id, x) ==> !s[x].protected
}

impl ElementStore {
    /// Recursively copies the subtree under `el` into fresh elements,
    /// shedding the `protected` flag throughout.
    #[verifier::loop_isolation(false)]
    pub fn deep_clone(&mut self, el: ElementPtr) -> (r: ElementPtr)
        requires
            old(self).wf(),
            old(self).valid(el),
        ensures
            final(self).wf(),
            extends(old(self)@, final(self)@),
            old(self)@.len() <= r.0 < final(self)@.len(),
            deep_equal(final(self)@, r.0 as int, final(self)@, el.0 as int),
            subtree_unprotected(final(self)@, r.0 as int),
        decreases height(old(self)@, el.0 as int),
    {
        let ghost orig = self@;
        let n = self.els[el.0].children.all.len();
        let ghost nodes = orig[el.0 as int].children.all@;
        let mut new_children = Children::new();
        let mut j: usize = 0;
        while j < n
            invariant
                j <= n,
                self.wf(),
                extends(orig, self@),
                new_children.wf(),
                new_children.all@.len() == j,
                forall|j2: int|
                    0 <= j2 < j ==> match (#[trigger] nodes[j2], new_children.all@[j2]) {
                        (Node::Text(t1), Node::Text(t2)) => t1@ == t2@,
                        (Node::Element(c1), Node::Element(c2)) => {
                            &&& orig.len() <= c2.0 < self@.len()
                            &&& deep_equal(self@, c2.0 as int, self@, c1.0 as int)
                            &&& subtree_unprotected(self@, c2.0 as int)
                        },
                        _ => false,
                    },
            decreases n - j,
        {
            let ghost mid = self@;
            let node = self.els[el.0].children.all[j].duplicate();
            match node {
                Node::Text(t) => {
                    new_children.push(Node::Text(t));
                },
                Node::Element(c) => {
                    proof {
                        assert(wf_element(orig.len() as int, orig[el.0 as int]));
                        assert(wf_node(orig.len() as int, nodes[j as int]));
                        assert(is_edge(orig, el.0 as int, c.0 as int));
                        lemma_height_child_lt(orig, el.0 as int, c.0 as int);
                        lemma_extend_height(orig, mid, c.0 as int);
                    }
                    let d = self.deep_clone(c);
                    proof {
                        // earlier clones keep their properties in the grown
                        // store
                        assert forall|j2: int|
                            0 <= j2 < j implies match (#[trigger] nodes[j2], new_children.all@[j2]) {
                            (Node::Text(t1), Node::Text(t2)) => t1@ == t2@,
                            (Node::Element(c1), Node::Element(c2)) => {
                                &&& orig.len() <= c2.0 < self@.len()
                                &&& deep_equal(self@, c2.0 as int, self@, c1.0 as int)
                                &&& subtree_unprotected(self@, c2.0 as int)
                            },
                            _ => false,
                        } by {
                            match (nodes[j2], new_children.all@[j2]) {
                                (Node::Element(c1), Node::Element(c2)) => {
                                    assert(wf_node(orig.len() as int, nodes[j2]));
                                    lemma_extend_deep_equal(mid, self@, c2.0 as int, c1.0 as int);
                                    assert forall|x: int| #[trigger] reaches(self@, c2.0 as int, x) implies !self@[x].protected by {
                                        lemma_extend_reaches(mid, self@, c2.0 as int, x);
                                        assert(reaches(mid, c2.0 as int, x));
                                        let p = choose|p: Seq<int>|
                                            is_path(mid, p) && p.first() == c2.0 as int && p.last()
                                                == x;
                                        lemma_extend_path_old(mid, self@, p);
                                        assert(x < mid.len());
                                        assert(self@[x] == mid[x]);
                                    }
                                },
                                _ => {},
                            }
                        }
                    }
                    new_children.push(Node::Element(d));
                },
            }
            j = j + 1;
        }
        let ghost cur = self@;
        let ghost newc = new_children.all@;
        proof {
            assert(newc.len() == nodes.len());
            assert(forall|j2: int|
                0 <= j2 < nodes.len() ==> match (#[trigger] nodes[j2], newc[j2]) {
                    (Node::Text(t1), Node::Text(t2)) => t1@ == t2@,
                    (Node::Element(c1), Node::Element(c2)) => {
                        &&& orig.len() <= c2.0 < cur.len()
                        &&& deep_equal(cur, c2.0 as int, cur, c1.0 as int)
                        &&& subtree_unprotected(cur, c2.0 as int)
                    },
                    _ => false,
                });
        }
        // assemble the clone and append it
        let idx = self.els.len();
        let e = Element {
            nsuri: match &self.els[el.0].nsuri {
                Some(ns) => Some(ns.clone()),
                None => None,
            },
            localname: self.els[el.0].localname.clone(),
            attr: self.els[el.0].attr.duplicate(),
            children: new_children,
            protected: false,
        };
        self.els.push(e);
        let ghost fin = self@;
        proof {
            let a = el.0 as int;
            let ridx = idx as int;
            assert(wf_element(orig.len() as int, orig[a]));
            // local well-formedness of the grown store
            assert(wf_local(fin)) by {
                assert forall|i: int|
                    0 <= i < fin.len() implies wf_element(fin.len() as int, #[trigger] fin[i]) by {
                    if i < cur.len() {
                        assert(wf_element(cur.len() as int, cur[i]));
                        assert forall|j2: int|
                            0 <= j2 < fin[i].children.all@.len() implies wf_node(
                            fin.len() as int,
                            #[trigger] fin[i].children.all@[j2],
                        ) by {
                            assert(wf_node(cur.len() as int, cur[i].children.all@[j2]));
                        }
                    } else {
                        assert(i == ridx);
                        assert forall|j2: int|
                            0 <= j2 < fin[i].children.all@.len() implies wf_node(
                            fin.len() as int,
                            #[trigger] fin[i].children.all@[j2],
                        ) by {
                            match nodes[j2] {
                                Node::Text(_) => {
                                    assert(wf_node(orig.len() as int, nodes[j2]));
                                },
                                Node::Element(_) => {},
                            }
                        }
                    }
                }
            }
            // acyclicity: the clone's edges point below it
            assert(fin[ridx].children.all@ == newc);
            assert(acyclic(fin)) by {
                assert forall|x: int, y: int| #[trigger] is_edge(fin, x, y) && x >= cur.len() implies y
                    < x by {
                    assert(x == ridx);
                    let j2 = choose|j2: int|
                        0 <= j2 < fin[x].children.all@.len() && (#[trigger] fin[x].children.all@[j2]) is Element
                            && fin[x].children.all@[j2]->Element_0.0 == y;
                    assert(newc[j2] is Element && newc[j2]->Element_0.0 == y);
                    match (nodes[j2], newc[j2]) {
                        (Node::Element(c1), Node::Element(c2)) => {
                            assert(c2.0 == y);
                            assert(y < cur.len());
                        },
                        _ => {
                            assert(false);
                        },
                    }
                }
                lemma_extend_acyclic(cur, fin);
            }
            // protection: the clone is unprotected, its children subtrees too
            assert(protected_closed(fin)) by {
                assert forall|x: int, y: int|
                    #[trigger] is_edge(fin, x, y) && fin[x].protected implies fin[y].protected by {
                    if x < cur.len() {
                        assert(is_edge(cur, x, y)) by {
                            assert(fin[x] == cur[x]);
                        }
                        assert(cur[x].protected ==> cur[y].protected);
                        assert(wf_element(cur.len() as int, cur[x]));
                        let j2 = choose|j2: int|
                            0 <= j2 < cur[x].children.all@.len() && (
                            #[trigger] cur[x].children.all@[j2]) is Element
                                && cur[x].children.all@[j2]->Element_0.0 == y;
                        assert(wf_node(cur.len() as int, cur[x].children.all@[j2]));
                        assert(fin[y] == cur[y]);
                    } else {
                        assert(x == ridx);
                        assert(!fin[x].protected);
                        assert(false);
                    }
                }
            }
            // the clone equals the original structurally
            assert(deep_equal(fin, ridx, fin, a)) by {
                assert(fin[ridx].children.all@.len() == nodes.len());
                assert forall|j2: int|
                    0 <= j2 < nodes.len() implies match (#[trigger] fin[ridx].children.all@[j2], fin[a].children.all@[j2]) {
                    (Node::Text(t1), Node::Text(t2)) => t1@ == t2@,
                    (Node::Element(c1), Node::Element(c2)) => deep_equal(
                        fin,
                        c1.0 as int,
                        fin,
                        c2.0 as int,
                    ),
                    _ => false,
                } by {
                    assert(fin[a].children.all@[j2] == nodes[j2]);
                    match (nodes[j2], fin[ridx].children.all@[j2]) {
                        (Node::Element(c1), Node::Element(c2)) => {
                            assert(wf_node(orig.len() as int, nodes[j2]));
                            assert(deep_equal(cur, c2.0 as int, cur, c1.0 as int));
                            lemma_extend_deep_equal(cur, fin, c2.0 as int, c1.0 as int);
                        },
                        _ => {},
                    }
                }
                lemma_deep_equal_upto_intro(fin, ridx, fin, a, nodes.len() as int);
            }
            // nothing under the clone is protected
            assert(subtree_unprotected(fin, ridx)) by {
                assert forall|x: int| #[trigger] reaches(fin, ridx, x) implies !fin[x].protected by {
                    if x != ridx {
                        lemma_reaches_unfold(fin, ridx, x);
                        let c = choose|c: int| is_edge(fin, ridx, c) && #[trigger] reaches(fin, c, x);
                        let j2 = choose|j2: int|
                            0 <= j2 < fin[ridx].children.all@.len() && (
                            #[trigger] fin[ridx].children.all@[j2]) is Element
                                && fin[ridx].children.all@[j2]->Element_0.0 == c;
                        assert(match nodes[j2] {
                            Node::Element(_) => true,
                            Node::Text(_) => false,
                        });
                        assert(orig.len() <= c < cur.len());
                        assert(subtree_unprotected(cur, c));
                        lemma_extend_reaches(cur, fin, c, x);
                        assert(reaches(cur, c, x));
                        let p = choose|p: Seq<int>|
                            is_path(cur, p) && p.first() == c && p.last() == x;
                        lemma_extend_path_old(cur, fin, p);
                        assert(fin[x] == cur[x]);
                    }
                }
            }
        }
        ElementPtr(idx)
    }
}

} // verus!

verus! {

impl ElementStore {
    /// Structural equality of two elements: name, namespace, attributes and
    /// children, the protection flags left aside.
    #[verifier::loop_isolation(false)]
    pub fn structural_eq(&self, a: ElementPtr, b: ElementPtr) -> (r: bool)
        requires
            self.wf(),
            self.valid(a),
            self.valid(b),
        ensures
            r == deep_equal(self@, a.0 as int, self@, b.0 as int),
        decreases height(self@, a.0 as int),
    {
        let ghost s = self@;
        let ghost ai = a.0 as int;
        let ghost bi = b.0 as int;
        if !crate::strutil::str_eq(self.els[a.0].localname.as_str(), self.els[b.0].localname.as_str()) {
            return false;
        }
        let ns_ok = match (&self.els[a.0].nsuri, &self.els[b.0].nsuri) {
            (Some(x), Some(y)) => crate::strutil::str_eq(x.as_str(), y.as_str()),
            (None, None) => true,
            _ => false,
        };
        if !ns_ok {
            return false;
        }
        if !crate::attrstr::attrs_equal(&self.els[a.0].attr, &self.els[b.0].attr) {
            return false;
        }
        let n = self.els[a.0].children.all.len();
        if n != self.els[b.0].children.all.len() {
            return false;
        }
        let mut j: usize = 0;
        while j < n
            invariant
                j <= n,
                deep_equal_upto(s, ai, s, bi, j as int),
            decreases n - j,
        {
            let ghost na = s[ai].children.all@[j as int];
            let ghost nb = s[bi].children.all@[j as int];
            let mismatch: bool;
            match (&self.els[a.0].children.all[j], &self.els[b.0].children.all[j]) {
                (Node::Text(t1), Node::Text(t2)) => {
                    mismatch = !crate::strutil::str_eq(t1.as_str(), t2.as_str());
                },
                (Node::Element(c1), Node::Element(c2)) => {
                    proof {
                        assert(wf_element(s.len() as int, s[ai]));
                        assert(wf_node(s.len() as int, na));
                        assert(wf_element(s.len() as int, s[bi]));
                        assert(wf_node(s.len() as int, nb));
                        assert(is_edge(s, ai, c1.0 as int));
                        lemma_height_child_lt(s, ai, c1.0 as int);
                    }
                    mismatch = !self.structural_eq(*c1, *c2);
                },
                _ => {
                    mismatch = true;
                },
            }
            if mismatch {
                proof {
                    if deep_equal(s, ai, s, bi) {
                        lemma_deep_equal_upto_elim(
                            s,
                            ai,
                            s,
                            bi,
                            s[ai].children.all@.len() as int,
                            j as int,
                        );
                        assert(false);
                    }
                }
                return false;
            }
            j = j + 1;
        }
        proof {
            assert(deep_equal(s, ai, s, bi));
        }
        true
    }
}

// ===== Child-list transformation =====

/// The first `j` old child nodes have been consumed into `news`: texts
/// kept verbatim, each element child either dropped or replaced by a value
/// the transformation returned, never one whose subtree holds `parent`.
pub open spec fn map_rel_upto<T, F: Fn(ElementPtr) -> Result<Option<ElementPtr>, T>>(
    f: F,
    olds: Seq<Node>,
    j: int,
    news: Seq<Node>,
    s: Seq<Element>,
    parent: int,
) -> bool
    decreases j,
{
    if j <= 0 {
        news.len() == 0
    } else {
        match olds[j - 1] {
            Node::Text(_) => news.len() >= 1 && news.last() == olds[j - 1] && map_rel_upto(
                f,
                olds,
                j - 1,
                news.drop_last(),
                s,
                parent,
            ),
            Node::Element(c) => {
                ||| (f.ensures((c,), Result::Ok(Option::None)) && map_rel_upto(
                    f,
                    olds,
                    j - 1,
                    news,
                    s,
                    parent,
                ))
                ||| (news.len() >= 1 && exists|e: ElementPtr|
                    {
                        &&& news.last() == Node::Element(e)
                        &&& #[trigger] f.ensures((c,), Result::Ok(Option::Some(e)))
                        &&& valid_id(s, e.0 as int)
                        &&& (e == c || (e.0 as int != parent && !reaches(s, e.0 as int, parent)))
                        &&& map_rel_upto(f, olds, j - 1, news.drop_last(), s, parent)
                    })
            },
        }
    }
}

/// The whole old child list has been consumed into `news`.
pub open spec fn map_rel<T, F: Fn(ElementPtr) -> Result<Option<ElementPtr>, T>>(
    f: F,
    olds: Seq<Node>,
    news: Seq<Node>,
    s: Seq<Element>,
    parent: int,
) -> bool {
    map_rel_upto(f, olds, olds.len() as int, news, s, parent)
}

/// What the child-list relation says of one original element child: the
/// transformation either dropped it, or returned an element that is the
/// same handle or passes the cycle check against the parent.
pub proof fn lemma_map_rel_elim<T, F: Fn(ElementPtr) -> Result<Option<ElementPtr>, T>>(
    f: F,
    olds: Seq<Node>,
    k: int,
    news: Seq<Node>,
    s: Seq<Element>,
    parent: int,
    j: int,
)
    requires
        map_rel_upto(f, olds, k, news, s, parent),
        0 <= j < k,
        olds[j] is Element,
    ensures
        f.ensures((olds[j]->Element_0,), Result::Ok(Option::None)) || exists|e: ElementPtr|
            {
                &&& #[trigger] f.ensures((olds[j]->Element_0,), Result::Ok(Option::Some(e)))
                &&& (e == olds[j]->Element_0 || (e.0 as int != parent && !reaches(
                    s,
                    e.0 as int,
                    parent,
                )))
            },
    decreases k,
{
    if j == k - 1 {
    } else {
        match olds[k - 1] {
            Node::Text(_) => {
                lemma_map_rel_elim(f, olds, k - 1, news.drop_last(), s, parent, j);
            },
            Node::Element(c) => {
                if f.ensures((c,), Result::Ok(Option::None)) && map_rel_upto(
                    f,
                    olds,
                    k - 1,
                    news,
                    s,
                    parent,
                ) {
                    lemma_map_rel_elim(f, olds, k - 1, news, s, parent, j);
                } else {
                    lemma_map_rel_elim(f, olds, k - 1, news.drop_last(), s, parent, j);
                }
            },
        }
    }
}

/// Cycle protection of the child-list transformation, stated generally:
/// when, for some element child, the transformation never drops it and
/// every element it can return is a different handle whose subtree holds
/// the parent, no rebuilt child list satisfies the transformation
/// relation. Together with the error clauses of `map_elements`, a
/// transformation that insists on inserting an ancestor can only end in
/// the failed insertion check.
pub proof fn lemma_map_elements_rejects_cycles<T, F: Fn(ElementPtr) -> Result<Option<ElementPtr>, T>>(
    f: F,
    olds: Seq<Node>,
    news: Seq<Node>,
    s: Seq<Element>,
    parent: int,
    j: int,
)
    requires
        0 <= j < olds.len(),
        olds[j] is Element,
        !f.ensures((olds[j]->Element_0,), Result::Ok(Option::None)),
        forall|e: ElementPtr|
            #[trigger] f.ensures((olds[j]->Element_0,), Result::Ok(Option::Some(e))) ==> e
                != olds[j]->Element_0 && reaches(s, e.0 as int, parent),
    ensures
        !map_rel(f, olds, news, s, parent),
{
    if map_rel(f, olds, news, s, parent) {
        lemma_map_rel_elim(f, olds, olds.len() as int, news, s, parent, j);
        let e = choose|e: ElementPtr|
            {
                &&& #[trigger] f.ensures((olds[j]->Element_0,), Result::Ok(Option::Some(e)))
                &&& (e == olds[j]->Element_0 || (e.0 as int != parent && !reaches(
                    s,
                    e.0 as int,
                    parent,
                )))
            };
        assert(false);
    }
}

impl ElementStore {
    /// Rebuilds the element's child list: texts are kept; each element
    /// child is passed to `f`, which drops it, keeps it, or substitutes
    /// another element. A substitution that is not the same handle must
    /// pass the same checks as `push`.
    #[verifier::loop_isolation(false)]
    pub fn map_elements<T, F: Fn(ElementPtr) -> Result<Option<ElementPtr>, T>>(
        &mut self,
        p: ElementPtr,
        f: F,
    ) -> (r: Result<(), MapElementsError<T>>)
        requires
            old(self).wf(),
            old(self).valid(p),
            forall|x: ElementPtr| #[trigger] f.requires((x,)),
            forall|x: ElementPtr, e: ElementPtr|
                #[trigger] f.ensures((x,), Result::Ok(Option::Some(e))) ==> e.0 < old(self)@.len(),
        ensures
            final(self).wf(),
            final(self)@.len() == old(self)@.len(),
            forall|i: int|
                0 <= i < old(self)@.len() && i != p.0 as int ==> final(self)@[i] == old(self)@[i],
            final(self)@[p.0 as int].nsuri == old(self)@[p.0 as int].nsuri,
            final(self)@[p.0 as int].localname == old(self)@[p.0 as int].localname,
            final(self)@[p.0 as int].attr == old(self)@[p.0 as int].attr,
            final(self)@[p.0 as int].protected == old(self)@[p.0 as int].protected,
            r is Ok ==> !old(self)@[p.0 as int].protected && map_rel(
                f,
                old(self)@[p.0 as int].children.all@,
                final(self)@[p.0 as int].children.all@,
                old(self)@,
                p.0 as int,
            ),
            r is Err ==> final(self)@ == old(self)@,
            r == Result::<(), MapElementsError<T>>::Err(
                MapElementsError::Insert(InsertError::Protected),
            ) <==> old(self)@[p.0 as int].protected,
            r == Result::<(), MapElementsError<T>>::Err(
                MapElementsError::Insert(InsertError::NodeIsSelf),
            ) ==> exists|c: ElementPtr|
                #[trigger] f.ensures((c,), Result::Ok(Option::Some(ElementPtr(p.0)))) && c
                    != ElementPtr(p.0),
            r == Result::<(), MapElementsError<T>>::Err(
                MapElementsError::Insert(InsertError::LoopDetected),
            ) ==> exists|c: ElementPtr, e2: ElementPtr|
                {
                    &&& #[trigger] f.ensures((c,), Result::Ok(Option::Some(e2)))
                    &&& e2 != c
                    &&& e2.0 != p.0
                    &&& reaches(old(self)@, e2.0 as int, p.0 as int)
                },
            r != Result::<(), MapElementsError<T>>::Err(
                MapElementsError::Insert(InsertError::NodeHasParent),
            ),
            (r is Err && r->Err_0 is External) ==> exists|c: ElementPtr|
                #[trigger] f.ensures((c,), Result::Err(r->Err_0->External_0)),
    {
        if self.els[p.0].protected {
            return Err(MapElementsError::Insert(InsertError::Protected));
        }
        let ghost s1 = self@;
        let ghost nodes = s1[p.0 as int].children.all@;
        let n = self.els[p.0].children.all.len();
        let mut new_children = Children::new();
        let mut j: usize = 0;
        while j < n
            invariant
                j <= n,
                self@ == s1,
                new_children.wf(),
                map_rel_upto(f, nodes, j as int, new_children.all@, s1, p.0 as int),
                forall|j2: int|
                    0 <= j2 < new_children.all@.len() && (#[trigger] new_children.all@[j2]) is Element
                        ==> {
                        &&& valid_id(s1, new_children.all@[j2]->Element_0.0 as int)
                        &&& new_children.all@[j2]->Element_0.0 != p.0
                        &&& !reaches(s1, new_children.all@[j2]->Element_0.0 as int, p.0 as int)
                    },
                forall|j2: int|
                    0 <= j2 < new_children.all@.len() ==> wf_node(
                        s1.len() as int,
                        #[trigger] new_children.all@[j2],
                    ),
            decreases n - j,
        {
            let node = self.els[p.0].children.all[j].duplicate();
            match node {
                Node::Text(t) => {
                    let ghost prev = new_children.all@;
                    new_children.push(Node::Text(t));
                    proof {
                        assert(new_children.all@.drop_last() =~= prev);
                        assert(wf_element(s1.len() as int, s1[p.0 as int]));
                        assert(wf_node(s1.len() as int, nodes[j as int]));
                    }
                },
                Node::Element(c) => {
                    let out = f(c);
                    match out {
                        Err(t) => {
                            let err = MapElementsError::External(t);
                            proof {
                                assert(f.ensures(
                                    (c,),
                                    Result::<Option<ElementPtr>, T>::Err(err->External_0),
                                ));
                            }
                            return Err(err);
                        },
                        Ok(None) => {},
                        Ok(Some(e)) => {
                            proof {
                                assert(f.ensures(
                                    (c,),
                                    Result::<Option<ElementPtr>, T>::Ok(Option::Some(e)),
                                ));
                            }
                            if !ElementPtr::ptr_eq(&e, &c) {
                                match self.check_insert(p, e) {
                                    Ok(()) => {},
                                    Err(ie) => {
                                        proof {
                                            if ie == InsertError::NodeIsSelf {
                                                assert(e == ElementPtr(p.0));
                                            }
                                        }
                                        return Err(MapElementsError::Insert(ie));
                                    },
                                }
                            }
                            proof {
                                assert(wf_element(s1.len() as int, s1[p.0 as int]));
                                assert(wf_node(s1.len() as int, nodes[j as int]));
                                assert(is_edge(s1, p.0 as int, c.0 as int));
                                if e == c {
                                    assert(!reaches(s1, c.0 as int, p.0 as int));
                                    if c.0 == p.0 {
                                        lemma_reaches_refl(s1, c.0 as int);
                                        assert(false);
                                    }
                                }
                            }
                            let ghost prev = new_children.all@;
                            new_children.push(Node::Element(e));
                            proof {
                                assert(new_children.all@.drop_last() =~= prev);
                            }
                        },
                    }
                },
            }
            j = j + 1;
        }
        let ghost newc = new_children.all@;
        self.els[p.0].children = new_children;
        let ghost s2 = self@;
        proof {
            assert(s2[p.0 as int].children.all@ == newc);
            assert(wf_local(s2)) by {
                assert forall|i: int|
                    0 <= i < s2.len() implies wf_element(s2.len() as int, #[trigger] s2[i]) by {
                    assert(wf_element(s1.len() as int, s1[i]));
                    if i == p.0 as int {
                    }
                }
            }
            assert(acyclic(s2)) by {
                assert forall|c: int| #[trigger] is_edge(s2, p.0 as int, c) implies c != p.0 as int
                    && !reaches(s1, c, p.0 as int) by {
                    let j2 = choose|j2: int|
                        0 <= j2 < newc.len() && (#[trigger] newc[j2]) is Element
                            && newc[j2]->Element_0.0 == c;
                }
                lemma_children_change_acyclic(s1, s2, p.0 as int);
            }
            assert(protected_closed(s2)) by {
                assert forall|a: int, b: int|
                    #[trigger] is_edge(s2, a, b) && s2[a].protected implies s2[b].protected by {
                    if a == p.0 as int {
                        assert(!s1[a].protected);
                        assert(false);
                    } else {
                        assert(is_edge(s1, a, b)) by {
                            assert(s2[a].children.all@ == s1[a].children.all@);
                        }
                        assert(s1[a].protected ==> s1[b].protected);
                    }
                }
            }
        }
        Ok(())
    }
}

} // verus!

verus! {

/// Growing the left store does not change structural equality of its old
/// elements against any fixed right store.
pub proof fn lemma_extend_deep_equal_cross(
    s1: Seq<Element>,
    s2: Seq<Element>,
    a: int,
    t: Seq<Element>,
    b: int,
)
    requires
        wf_local(s1),
        acyclic(s1),
        wf_local(s2),
        acyclic(s2),
        extends(s1, s2),
        0 <= a < s1.len(),
    ensures
        deep_equal(s2, a, t, b) == deep_equal(s1, a, t, b),
    decreases height(s1, a),
{
    assert(s2[a] == s1[a]);
    let n = s1[a].children.all@.len() as int;
    assert(wf_element(s1.len() as int, s1[a]));
    if deep_equal(s2, a, t, b) {
        lemma_extend_deep_equal_cross_upto(s1, s2, a, t, b, n, true);
    }
    if deep_equal(s1, a, t, b) {
        lemma_extend_deep_equal_cross_upto(s1, s2, a, t, b, n, false);
    }
}

proof fn lemma_extend_deep_equal_cross_upto(
    s1: Seq<Element>,
    s2: Seq<Element>,
    a: int,
    t: Seq<Element>,
    b: int,
    k: int,
    down: bool,
)
    requires
        wf_local(s1),
        acyclic(s1),
        wf_local(s2),
        acyclic(s2),
        extends(s1, s2),
        0 <= a < s1.len(),
        k <= s1[a].children.all@.len(),
        down ==> deep_equal_upto(s2, a, t, b, k),
        !down ==> deep_equal_upto(s1, a, t, b, k),
    ensures
        down ==> deep_equal_upto(s1, a, t, b, k),
        !down ==> deep_equal_upto(s2, a, t, b, k),
    decreases height(s1, a), k,
{
    assert(s2[a] == s1[a]);
    if k > 0 {
        lemma_extend_deep_equal_cross_upto(s1, s2, a, t, b, k - 1, down);
        if 0 <= b < t.len() && k <= t[b].children.all@.len() {
            match (s1[a].children.all@[k - 1], t[b].children.all@[k - 1]) {
                (Node::Element(c1), Node::Element(c2)) => {
                    assert(is_edge(s1, a, c1.0 as int));
                    lemma_height_child_lt(s1, a, c1.0 as int);
                    assert(wf_element(s1.len() as int, s1[a]));
                    assert(wf_node(s1.len() as int, s1[a].children.all@[k - 1]));
                    lemma_extend_deep_equal_cross(s1, s2, c1.0 as int, t, c2.0 as int);
                },
                _ => {},
            }
        }
    }
}

impl ElementStore {
    /// Copies the subtree under `el` of `src` into this store, creating
    /// fresh, unprotected elements.
    #[verifier::loop_isolation(false)]
    pub fn copy_from(&mut self, src: &ElementStore, el: ElementPtr) -> (r: ElementPtr)
        requires
            old(self).wf(),
            src.wf(),
            src.valid(el),
        ensures
            final(self).wf(),
            extends(old(self)@, final(self)@),
            old(self)@.len() <= r.0 < final(self)@.len(),
            deep_equal(final(self)@, r.0 as int, src@, el.0 as int),
            subtree_unprotected(final(self)@, r.0 as int),
        decreases height(src@, el.0 as int),
    {
        let ghost dst0 = self@;
        let ghost s = src@;
        let n = src.els[el.0].children.all.len();
        let ghost nodes = s[el.0 as int].children.all@;
        let mut new_children = Children::new();
        let mut j: usize = 0;
        while j < n
            invariant
                j <= n,
                self.wf(),
                extends(dst0, self@),
                new_children.wf(),
                new_children.all@.len() == j,
                forall|j2: int|
                    0 <= j2 < j ==> match (#[trigger] nodes[j2], new_children.all@[j2]) {
                        (Node::Text(t1), Node::Text(t2)) => t1@ == t2@,
                        (Node::Element(c1), Node::Element(c2)) => {
                            &&& dst0.len() <= c2.0 < self@.len()
                            &&& deep_equal(self@, c2.0 as int, s, c1.0 as int)
                            &&& subtree_unprotected(self@, c2.0 as int)
                        },
                        _ => false,
                    },
            decreases n - j,
        {
            let ghost mid = self@;
            let node = src.els[el.0].children.all[j].duplicate();
            match node {
                Node::Text(t) => {
                    new_children.push(Node::Text(t));
                },
                Node::Element(c) => {
                    proof {
                        assert(wf_element(s.len() as int, s[el.0 as int]));
                        assert(wf_node(s.len() as int, nodes[j as int]));
                        assert(is_edge(s, el.0 as int, c.0 as int));
                        lemma_height_child_lt(s, el.0 as int, c.0 as int);
                    }
                    let d = self.copy_from(src, c);
                    proof {
                        assert forall|j2: int|
                            0 <= j2 < j implies match (#[trigger] nodes[j2], new_children.all@[j2]) {
                            (Node::Text(t1), Node::Text(t2)) => t1@ == t2@,
                            (Node::Element(c1), Node::Element(c2)) => {
                                &&& dst0.len() <= c2.0 < self@.len()
                                &&& deep_equal(self@, c2.0 as int, s, c1.0 as int)
                                &&& subtree_unprotected(self@, c2.0 as int)
                            },
                            _ => false,
                        } by {
                            match (nodes[j2], new_children.all@[j2]) {
                                (Node::Element(c1), Node::Element(c2)) => {
                                    assert(wf_node(s.len() as int, nodes[j2]));
                                    lemma_extend_deep_equal_cross(
                                        mid,
                                        self@,
                                        c2.0 as int,
                                        s,
                                        c1.0 as int,
                                    );
                                    assert forall|x: int|
                                        #[trigger] reaches(self@, c2.0 as int, x) implies !self@[x].protected by {
                                        lemma_extend_reaches(mid, self@, c2.0 as int, x);
                                        let p = choose|p: Seq<int>|
                                            is_path(mid, p) && p.first() == c2.0 as int && p.last()
                                                == x;
                                        lemma_extend_path_old(mid, self@, p);
                                        assert(self@[x] == mid[x]);
                                    }
                                },
                                _ => {},
                            }
                        }
                    }
                    new_children.push(Node::Element(d));
                },
            }
            j = j + 1;
        }
        let ghost cur = self@;
        let ghost newc = new_children.all@;
        proof {
            assert(newc.len() == nodes.len());
            assert(forall|j2: int|
                0 <= j2 < nodes.len() ==> match (#[trigger] nodes[j2], newc[j2]) {
                    (Node::Text(t1), Node::Text(t2)) => t1@ == t2@,
                    (Node::Element(c1), Node::Element(c2)) => {
                        &&& dst0.len() <= c2.0 < cur.len()
                        &&& deep_equal(cur, c2.0 as int, s, c1.0 as int)
                        &&& subtree_unprotected(cur, c2.0 as int)
                    },
                    _ => false,
                });
        }
        let idx = self.els.len();
        let e = Element {
            nsuri: match &src.els[el.0].nsuri {
                Some(ns) => Some(ns.clone()),
                None => None,
            },
            localname: src.els[el.0].localname.clone(),
            attr: src.els[el.0].attr.duplicate(),
            children: new_children,
            protected: false,
        };
        self.els.push(e);
        let ghost fin = self@;
        proof {
            let a = el.0 as int;
            let ridx = idx as int;
            assert(fin[ridx].children.all@ == newc);
            assert(wf_element(s.len() as int, s[a]));
            assert(wf_local(fin)) by {
                assert forall|i: int|
                    0 <= i < fin.len() implies wf_element(fin.len() as int, #[trigger] fin[i]) by {
                    if i < cur.len() {
                        assert(wf_element(cur.len() as int, cur[i]));
                        assert forall|j2: int|
                            0 <= j2 < fin[i].children.all@.len() implies wf_node(
                            fin.len() as int,
                            #[trigger] fin[i].children.all@[j2],
                        ) by {
                            assert(wf_node(cur.len() as int, cur[i].children.all@[j2]));
                        }
                    } else {
                        assert(i == ridx);
                        assert forall|j2: int|
                            0 <= j2 < fin[i].children.all@.len() implies wf_node(
                            fin.len() as int,
                            #[trigger] fin[i].children.all@[j2],
                        ) by {
                            match nodes[j2] {
                                Node::Text(_) => {
                                    assert(wf_node(s.len() as int, nodes[j2]));
                                },
                                Node::Element(_) => {},
                            }
                        }
                    }
                }
            }
            assert(acyclic(fin)) by {
                assert forall|x: int, y: int| #[trigger] is_edge(fin, x, y) && x >= cur.len() implies y
                    < x by {
                    assert(x == ridx);
                    let j2 = choose|j2: int|
                        0 <= j2 < fin[x].children.all@.len() && (#[trigger] fin[x].children.all@[j2]) is Element
                            && fin[x].children.all@[j2]->Element_0.0 == y;
                    assert(newc[j2] is Element && newc[j2]->Element_0.0 == y);
                    match (nodes[j2], newc[j2]) {
                        (Node::Element(c1), Node::Element(c2)) => {
                            assert(c2.0 == y);
                            assert(y < cur.len());
                        },
                        _ => {
                            assert(false);
                        },
                    }
                }
                lemma_extend_acyclic(cur, fin);
            }
            assert(protected_closed(fin)) by {
                assert forall|x: int, y: int|
                    #[trigger] is_edge(fin, x, y) && fin[x].protected implies fin[y].protected by {
                    if x < cur.len() {
                        assert(is_edge(cur, x, y)) by {
                            assert(fin[x] == cur[x]);
                        }
                        assert(cur[x].protected ==> cur[y].protected);
                        assert(wf_element(cur.len() as int, cur[x]));
                        let j2 = choose|j2: int|
                            0 <= j2 < cur[x].children.all@.len() && (
                            #[trigger] cur[x].children.all@[j2]) is Element
                                && cur[x].children.all@[j2]->Element_0.0 == y;
                        assert(wf_node(cur.len() as int, cur[x].children.all@[j2]));
                        assert(fin[y] == cur[y]);
                    } else {
                        assert(x == ridx);
                        assert(!fin[x].protected);
                        assert(false);
                    }
                }
            }
            assert(deep_equal(fin, ridx, s, a)) by {
                assert(fin[ridx].children.all@.len() == nodes.len());
                assert forall|j2: int|
                    0 <= j2 < nodes.len() implies match (#[trigger] fin[ridx].children.all@[j2], s[a].children.all@[j2]) {
                    (Node::Text(t1), Node::Text(t2)) => t1@ == t2@,
                    (Node::Element(c1), Node::Element(c2)) => deep_equal(
                        fin,
                        c1.0 as int,
                        s,
                        c2.0 as int,
                    ),
                    _ => false,
                } by {
                    assert(s[a].children.all@[j2] == nodes[j2]);
                    match (nodes[j2], fin[ridx].children.all@[j2]) {
                        (Node::Element(c1), Node::Element(c2)) => {
                            assert(wf_node(s.len() as int, nodes[j2]));
                            assert(deep_equal(cur, c2.0 as int, s, c1.0 as int));
                            lemma_extend_deep_equal_cross(cur, fin, c2.0 as int, s, c1.0 as int);
                        },
                        _ => {},
                    }
                }
                lemma_deep_equal_upto_intro(fin, ridx, s, a, nodes.len() as int);
            }
            assert(subtree_unprotected(fin, ridx)) by {
                assert forall|x: int| #[trigger] reaches(fin, ridx, x) implies !fin[x].protected by {
                    if x != ridx {
                        lemma_reaches_unfold(fin, ridx, x);
                        let c = choose|c: int| is_edge(fin, ridx, c) && #[trigger] reaches(fin, c, x);
                        let j2 = choose|j2: int|
                            0 <= j2 < fin[ridx].children.all@.len() && (
                            #[trigger] fin[ridx].children.all@[j2]) is Element
                                && fin[ridx].children.all@[j2]->Element_0.0 == c;
                        assert(newc[j2] is Element && newc[j2]->Element_0.0 == c);
                        assert(match nodes[j2] {
                            Node::Element(_) => true,
                            Node::Text(_) => false,
                        });
                        assert(dst0.len() <= c < cur.len());
                        assert(subtree_unprotected(cur, c));
                        lemma_extend_reaches(cur, fin, c, x);
                        assert(reaches(cur, c, x));
                        let p = choose|p: Seq<int>|
                            is_path(cur, p) && p.first() == c && p.last() == x;
                        lemma_extend_path_old(cur, fin, p);
                        assert(fin[x] == cur[x]);
                    }
                }
            }
        }
        ElementPtr(idx)
    }
}

} // verus!

verus! {

impl ElementStore {
    /// Inserts or replaces one attribute of the element.
    pub fn set_attr(&mut self, p: ElementPtr, k: String, v: String)
        requires
            old(self).wf(),
            old(self).valid(p),
            crate::attrstr::valid_attr_storage(k@),
        ensures
            final(self).wf(),
            final(self)@.len() == old(self)@.len(),
            forall|i: int|
                0 <= i < old(self)@.len() && i != p.0 as int ==> final(self)@[i] == old(self)@[i],
            final(self)@[p.0 as int].nsuri == old(self)@[p.0 as int].nsuri,
            final(self)@[p.0 as int].localname == old(self)@[p.0 as int].localname,
            final(self)@[p.0 as int].children == old(self)@[p.0 as int].children,
            final(self)@[p.0 as int].protected == old(self)@[p.0 as int].protected,
            final(self)@[p.0 as int].attr.spec_get(k@) == Some(v@),
            forall|k2: Seq<char>|
                k2 != k@ ==> #[trigger] final(self)@[p.0 as int].attr.spec_get(k2) == old(
                    self,
                )@[p.0 as int].attr.spec_get(k2),
    {
        let ghost s1 = self@;
        proof {
            assert(wf_element(s1.len() as int, s1[p.0 as int]));
        }
        self.els[p.0].attr.insert(k, v);
        let ghost s2 = self@;
        proof {
            assert(same_shape(s1, s2));
            lemma_same_shape_graph(s1, s2);
            assert(wf_local(s2)) by {
                assert forall|i: int|
                    0 <= i < s2.len() implies wf_element(s2.len() as int, #[trigger] s2[i]) by {
                    assert(wf_element(s1.len() as int, s1[i]));
                }
            }
            assert(protected_closed(s2)) by {
                assert forall|a: int, b: int|
                    #[trigger] is_edge(s2, a, b) && s2[a].protected implies s2[b].protected by {
                    assert(is_edge(s1, a, b));
                    assert(s1[a].protected == s2[a].protected);
                    assert(s1[b].protected == s2[b].protected);
                }
            }
        }
    }

    /// The value of one attribute of the element, if set.
    pub fn get_attr<'a>(&'a self, p: ElementPtr, k: &str) -> (r: Option<&'a String>)
        requires
            self.valid(p),
        ensures
            match r {
                Option::Some(v) => self@[p.0 as int].attr.spec_get(k@) == Some(v@),
                Option::None => self@[p.0 as int].attr.spec_get(k@) is None,
            },
    {
        self.els[p.0].attr.get(k)
    }
}

} // verus!

verus! {

/// The element-only view is faithful: every recorded index points into the
/// mixed child list at an element node, and the indices are strictly
/// increasing, so the view preserves the original order.
pub proof fn lemma_element_view_faithful(c: Children)
    requires
        c.wf(),
        c.all@.len() <= usize::MAX,
    ensures
        forall|i: int|
            0 <= i < c.element_indices@.len() ==> (#[trigger] c.element_indices@[i])
                < c.all@.len() && c.all@[c.element_indices@[i] as int] is Element,
        forall|i: int, j: int|
            0 <= i < j < c.element_indices@.len() ==> c.element_indices@[i]
                < c.element_indices@[j],
        forall|p: int|
            0 <= p < c.all@.len() && c.all@[p] is Element ==> exists|i: int|
                0 <= i < c.element_indices@.len() && (#[trigger] c.element_indices@[i]) == p,
{
    lemma_elem_positions(c.all@);
}

/// Handles are aliases: two handles with the same index denote the same
/// element of any store, so a mutation observed through one is observed
/// through the other.
pub proof fn lemma_handle_aliasing(s: Seq<Element>, a: ElementPtr, b: ElementPtr)
    requires
        a.0 == b.0,
        valid_id(s, a.0 as int),
    ensures
        s[a.0 as int] == s[b.0 as int],
{
}

/// A protected element reaches no unprotected element, so it may be pushed
/// under any number of mutable parents: the cycle check can never find
/// such a parent inside its subtree.
pub proof fn lemma_protected_shareable(s: Seq<Element>, el: int, p1: int, p2: int)
    requires
        wf_store(s),
        valid_id(s, el),
        valid_id(s, p1),
        valid_id(s, p2),
        s[el].protected,
        !s[p1].protected,
        !s[p2].protected,
    ensures
        !reaches(s, el, p1),
        !reaches(s, el, p2),
        el != p1 && el != p2,
{
    if reaches(s, el, p1) {
        lemma_protected_reachable(s, el, p1);
    }
    if reaches(s, el, p2) {
        lemma_protected_reachable(s, el, p2);
    }
}

} // verus!
