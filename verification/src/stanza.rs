//! A stanza: one element tree together with a cursor used to build it.
use vstd::prelude::*;

use crate::attrstr::AttributeMap;
use crate::path::{path_deref, ElementPath};
use crate::tree::{Element, ElementPtr, ElementStore};
use crate::validation;

verus! {

/// One protocol unit: the store that owns its tree, the root handle, and a
/// cursor of child indices used by the builder methods.
#[derive(Debug)]
pub struct Stanza {
    pub store: ElementStore,
    pub root: ElementPtr,
    pub cursor: ElementPath,
}

impl Stanza {
    /// Well-formed store with a valid root handle.
    pub open spec fn wf(self) -> bool {
        self.store.wf() && self.store.valid(self.root)
    }

    /// The element the cursor points at, if the path is intact.
    pub open spec fn spec_deref(self) -> Option<int> {
        path_deref(self.store@, self.root.0 as int, self.cursor.0@)
    }

    /// A fresh stanza with one root element and the cursor at the root.
    pub fn new(nsuri: Option<String>, name: String, attr: Option<AttributeMap>) -> (r: Stanza)
        requires
            validation::valid_name(name@),
            match nsuri {
                Option::Some(ns) => validation::valid_cdata(ns@),
                Option::None => true,
            },
            match attr {
                Option::Some(a) => a.wf(),
                Option::None => true,
            },
        ensures
            r.wf(),
            r.store@.len() == 1,
            r.root.0 == 0,
            r.cursor.0@ =~= Seq::<usize>::empty(),
            r.store@[0].nsuri == nsuri,
            r.store@[0].localname == name,
            r.store@[0].attr@ == match attr {
                Option::Some(a) => a@,
                Option::None => Seq::<(String, String)>::empty(),
            },
            r.store@[0].children.all@ =~= Seq::<crate::tree::Node>::empty(),
            r.store@[0].protected == false,
    {
        let mut store = ElementStore::new();
        let root = store.new_element_with_attr(nsuri, name, attr);
        Stanza { store, root, cursor: ElementPath::new() }
    }

    /// Wraps an existing element as the root of a stanza.
    pub fn wrap(store: ElementStore, ptr: ElementPtr) -> (r: Stanza)
        requires
            store.wf(),
            store.valid(ptr),
        ensures
            r.wf(),
            r.store == store,
            r.root == ptr,
            r.cursor.0@ =~= Seq::<usize>::empty(),
    {
        Stanza { store, root: ptr, cursor: ElementPath::new() }
    }

    /// The element under the cursor, if every step of the path is intact.
    pub fn try_deref(&self) -> (r: Option<ElementPtr>)
        requires
            self.wf(),
        ensures
            match r {
                Option::Some(p) => self.spec_deref() == Some(p.0 as int) && self.store.valid(p),
                Option::None => self.spec_deref() is None,
            },
    {
        self.cursor.deref_on(&self.store, self.root)
    }

    /// Read access to the root element.
    pub fn root(&self) -> (r: &Element)
        requires
            self.wf(),
        ensures
            r == self.store@[self.root.0 as int],
    {
        self.store.element(self.root)
    }

    /// The root handle.
    pub fn root_ptr(&self) -> (r: ElementPtr)
        ensures
            r == self.root,
    {
        self.root
    }

    /// Appends a fresh child element under the cursor and descends to it.
    /// Fails when the cursor no longer dereferences.
    pub fn tag(&mut self, nsuri: Option<String>, name: String, attr: Option<AttributeMap>) -> (r: Option<
        ElementPtr,
    >)
        requires
            old(self).wf(),
            validation::valid_name(name@),
            match nsuri {
                Option::Some(ns) => validation::valid_cdata(ns@),
                Option::None => true,
            },
            match attr {
                Option::Some(a) => a.wf(),
                Option::None => true,
            },
        ensures
            final(self).wf(),
            final(self).root == old(self).root,
            match r {
                Option::Some(child) => {
                    &&& old(self).spec_deref() matches Some(par)
                    &&& {
                        let par = old(self).spec_deref().unwrap();
                        &&& child.0 == old(self).store@.len()
                        &&& final(self).store@.len() == old(self).store@.len() + 1
                        &&& final(self).store@[child.0 as int].localname == name
                        &&& final(self).store@[child.0 as int].nsuri == match nsuri {
                            Option::Some(ns) => Option::Some(ns),
                            Option::None => old(self).store@[par].nsuri,
                        }
                        &&& final(self).store@[child.0 as int].protected == old(
                            self,
                        ).store@[par].protected
                        &&& final(self).store@[child.0 as int].attr@ == match attr {
                            Option::Some(a) => a@,
                            Option::None => Seq::<(String, String)>::empty(),
                        }
                        &&& final(self).store@[child.0 as int].children.all@ =~= Seq::<
                            crate::tree::Node,
                        >::empty()
                        &&& final(self).store@[par].children.all@ == old(
                            self,
                        ).store@[par].children.all@.push(crate::tree::Node::Element(child))
                        &&& forall|i: int|
                            0 <= i < old(self).store@.len() && i != par ==> final(self).store@[i]
                                == old(self).store@[i]
                        &&& final(self).cursor.0@ == old(self).cursor.0@.push(
                            old(self).store@[par].children.all@.len() as usize,
                        )
                    }
                },
                Option::None => old(self).spec_deref() is None && *final(self) == *old(self),
            },
    {
        let parent = match self.cursor.deref_on(&self.store, self.root) {
            Some(p) => p,
            None => {
                return None;
            },
        };
        let new_index = self.store.element(parent).children.len();
        self.cursor.down(new_index);
        Some(self.store.tag(parent, nsuri, name, attr))
    }

    /// Appends a text node at the cursor, which does not move.
    pub fn text(&mut self, data: String) -> (r: bool)
        requires
            old(self).wf(),
            validation::valid_cdata(data@),
        ensures
            final(self).wf(),
            final(self).root == old(self).root,
            final(self).cursor == old(self).cursor,
            r == (old(self).spec_deref() is Some),
            if r {
                let par = old(self).spec_deref().unwrap();
                &&& final(self).store@.len() == old(self).store@.len()
                &&& final(self).store@[par].children.all@ == old(self).store@[par].children.all@.push(
                    crate::tree::Node::Text(data),
                )
                &&& forall|i: int|
                    0 <= i < old(self).store@.len() && i != par ==> final(self).store@[i] == old(
                        self,
                    ).store@[i]
            } else {
                *final(self) == *old(self)
            },
    {
        let parent = match self.cursor.deref_on(&self.store, self.root) {
            Some(p) => p,
            None => {
                return false;
            },
        };
        self.store.text(parent, data);
        true
    }

    /// Descends the cursor to child index `index`.
    pub fn down(&mut self, index: usize)
        ensures
            final(self).store == old(self).store,
            final(self).root == old(self).root,
            final(self).cursor.0@ == old(self).cursor.0@.push(index),
    {
        self.cursor.down(index);
    }

    /// Moves the cursor one step up; at the root this does nothing.
    pub fn up(&mut self)
        ensures
            final(self).store == old(self).store,
            final(self).root == old(self).root,
            final(self).cursor.0@ == if old(self).cursor.0@.len() == 0 {
                old(self).cursor.0@
            } else {
                old(self).cursor.0@.drop_last()
            },
    {
        self.cursor.up();
    }

    /// Moves the cursor back to the root.
    pub fn reset(&mut self)
        ensures
            final(self).store == old(self).store,
            final(self).root == old(self).root,
            final(self).cursor.0@ =~= Seq::<usize>::empty(),
    {
        self.cursor.reset();
    }

    /// True when the cursor is at the root.
    pub fn is_at_top(&self) -> (r: bool)
        ensures
            r == (self.cursor.0@.len() == 0),
    {
        self.cursor.depth() == 0
    }

    /// A structurally equal copy of the whole tree in a store of its own,
    /// unprotected throughout, with the cursor reset.
    pub fn deep_clone(&self) -> (r: Stanza)
        requires
            self.wf(),
        ensures
            r.wf(),
            r.cursor.0@ =~= Seq::<usize>::empty(),
            crate::tree::deep_equal(r.store@, r.root.0 as int, self.store@, self.root.0 as int),
            crate::tree::subtree_unprotected(r.store@, r.root.0 as int),
    {
        let mut store2 = ElementStore::new();
        let cloned = store2.copy_from(&self.store, self.root);
        Stanza { store: store2, root: cloned, cursor: ElementPath::new() }
    }
}

} // verus!
