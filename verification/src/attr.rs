//! Attribute access through a stanza cursor.
use vstd::prelude::*;

use crate::attrstr;
use crate::stanza::Stanza;

verus! {

/// A cursor-addressed view on the attributes of one element.
#[derive(Debug)]
pub struct AttributePath(pub Stanza);

impl AttributePath {
    /// The underlying stanza is well formed.
    pub open spec fn wf(self) -> bool {
        self.0.wf()
    }

    /// Wraps a stanza; its cursor addresses the element whose attributes
    /// are read and written.
    pub fn wrap(p: Stanza) -> (r: AttributePath)
        ensures
            r.0 == p,
    {
        AttributePath(p)
    }

    /// The value of attribute `k` at the cursor, if the cursor dereferences
    /// and the attribute is set.
    pub fn get(&self, k: String) -> (r: Option<String>)
        requires
            self.wf(),
        ensures
            match r {
                Option::Some(v) => self.0.spec_deref() matches Some(el)
                    && self.0.store@[el].attr.spec_get(k@) == Some(v@),
                Option::None => self.0.spec_deref() is None || (self.0.spec_deref() matches Some(el)
                    && self.0.store@[el].attr.spec_get(k@) is None),
            },
    {
        let el = match self.0.try_deref() {
            Some(el) => el,
            None => {
                return None;
            },
        };
        match self.0.store.get_attr(el, k.as_str()) {
            Some(v) => Some(v.clone()),
            None => None,
        }
    }

    /// Sets attribute `k` at the cursor; without a dereferencing cursor
    /// this does nothing.
    pub fn set(&mut self, k: String, v: String)
        requires
            old(self).wf(),
            attrstr::valid_attr_storage(k@),
        ensures
            final(self).wf(),
            final(self).0.root == old(self).0.root,
            final(self).0.cursor == old(self).0.cursor,
            match old(self).0.spec_deref() {
                Option::Some(el) => {
                    &&& final(self).0.store@.len() == old(self).0.store@.len()
                    &&& final(self).0.store@[el].attr.spec_get(k@) == Some(v@)
                    &&& forall|k2: Seq<char>|
                        k2 != k@ ==> #[trigger] final(self).0.store@[el].attr.spec_get(k2) == old(
                            self,
                        ).0.store@[el].attr.spec_get(k2)
                    &&& forall|i: int|
                        0 <= i < old(self).0.store@.len() && i != el ==> final(self).0.store@[i]
                            == old(self).0.store@[i]
                },
                Option::None => final(self).0.store == old(self).0.store,
            },
    {
        let el = match self.0.try_deref() {
            Some(el) => el,
            None => {
                return ;
            },
        };
        self.0.store.set_attr(el, k, v);
    }
}

} // verus!
