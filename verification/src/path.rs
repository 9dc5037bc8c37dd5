//! Cursor paths: a stack of child indices that addresses one element
//! inside a tree, starting from a root handle.
use vstd::prelude::*;

use crate::tree;
use crate::tree::{Element, ElementPtr, ElementStore, Node};

verus! {

/// Walks `idxs` from `root`: each step must land on an element child;
/// a text node or an out-of-range index makes the walk fail.
pub open spec fn path_deref(s: Seq<Element>, root: int, idxs: Seq<usize>) -> Option<int>
    decreases idxs.len(),
{
    if !tree::valid_id(s, root) {
        None
    } else if idxs.len() == 0 {
        Some(root)
    } else {
        let i = idxs[0] as int;
        if i < s[root].children.all@.len() && s[root].children.all@[i] is Element {
            path_deref(s, s[root].children.all@[i]->Element_0.0 as int, idxs.drop_first())
        } else {
            None
        }
    }
}

/// A successful walk lands on an element of the store.
pub proof fn lemma_path_deref_valid(s: Seq<Element>, root: int, idxs: Seq<usize>)
    requires
        path_deref(s, root, idxs) is Some,
    ensures
        tree::valid_id(s, path_deref(s, root, idxs).unwrap()),
    decreases idxs.len(),
{
    if idxs.len() > 0 {
        let i = idxs[0] as int;
        if i < s[root].children.all@.len() && s[root].children.all@[i] is Element {
            lemma_path_deref_valid(s, s[root].children.all@[i]->Element_0.0 as int, idxs.drop_first());
        }
    }
}

/// A stack of child indices, the cursor of a stanza.
#[derive(Debug, Clone)]
pub struct ElementPath(pub Vec<usize>);

impl ElementPath {
    /// The empty path, pointing at the root itself.
    pub fn new() -> (r: ElementPath)
        ensures
            r.0@ =~= Seq::<usize>::empty(),
    {
        ElementPath(Vec::new())
    }

    /// Follows the path from `root` through the store.
    #[verifier::loop_isolation(false)]
    pub fn deref_on(&self, store: &ElementStore, root: ElementPtr) -> (r: Option<ElementPtr>)
        requires
            store.wf(),
            store.valid(root),
        ensures
            match r {
                Option::Some(p) => path_deref(store@, root.0 as int, self.0@) == Some(p.0 as int)
                    && store.valid(p),
                Option::None => path_deref(store@, root.0 as int, self.0@) is None,
            },
    {
        let mut curr = root;
        let mut k: usize = 0;
        let n = self.0.len();
        proof {
            assert(self.0@.skip(0) =~= self.0@);
        }
        while k < n
            invariant
                k <= n,
                store.valid(curr),
                path_deref(store@, root.0 as int, self.0@) == path_deref(
                    store@,
                    curr.0 as int,
                    self.0@.skip(k as int),
                ),
            decreases n - k,
        {
            let i = self.0[k];
            proof {
                assert(self.0@.skip(k as int)[0] == self.0@[k as int]);
                assert(self.0@.skip(k as int).drop_first() =~= self.0@.skip(k + 1));
            }
            let node_count = store.element(curr).children.len();
            if i >= node_count {
                return None;
            }
            match store.element(curr).children.get(i) {
                Some(Node::Element(c)) => {
                    proof {
                        assert(tree::wf_element(store@.len() as int, store@[curr.0 as int]));
                        assert(tree::wf_node(
                            store@.len() as int,
                            store@[curr.0 as int].children.all@[i as int],
                        ));
                    }
                    curr = *c;
                },
                _ => {
                    return None;
                },
            }
            k = k + 1;
        }
        proof {
            assert(self.0@.skip(n as int).len() == 0);
        }
        Some(curr)
    }

    /// Descends one step to child index `index`.
    pub fn down(&mut self, index: usize)
        ensures
            final(self).0@ == old(self).0@.push(index),
    {
        self.0.push(index);
    }

    /// Ascends one step; at the root this does nothing.
    pub fn up(&mut self)
        ensures
            final(self).0@ == if old(self).0@.len() == 0 {
                old(self).0@
            } else {
                old(self).0@.drop_last()
            },
    {
        if self.0.len() == 0 {
            return ;
        }
        let _ = self.0.pop();
    }

    /// Truncates the path back to the root.
    pub fn reset(&mut self)
        ensures
            final(self).0@ =~= Seq::<usize>::empty(),
    {
        self.0.clear();
    }

    /// Number of steps below the root.
    pub fn depth(&self) -> (r: usize)
        ensures
            r == self.0@.len(),
    {
        self.0.len()
    }
}

} // verus!
