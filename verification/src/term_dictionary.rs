//! The term dictionary: interns terms to dense identifiers.

use vstd::prelude::*;
use vstd::hash_map::StringHashMap;
use crate::ids::TermId;

verus! {

/// An append-only table of terms. A term's identifier is its place in the
/// order of first insertion.
pub struct TermDictionary {
    pub next_id: u32,
    /// The identifier of each term.
    pub terms: StringHashMap<TermId>,
    /// The term of each identifier.
    pub term_ids: Vec<String>,
}

impl Default for TermDictionary {
    /// A dictionary without terms.
    fn default() -> (r: TermDictionary)
        ensures
            r.wf(),
            r.next_id == 0,
            r.names() == Seq::<Seq<char>>::empty(),
            forall|name: Seq<char>| !r.has(name),
    {
        TermDictionary::new()
    }
}

impl TermDictionary {
    /// The terms, in the order of their identifiers.
    pub open spec fn names(&self) -> Seq<Seq<char>> {
        Seq::new(self.term_ids@.len(), |i: int| self.term_ids@[i]@)
    }

    /// Whether `name` has been interned.
    pub open spec fn has(&self, name: Seq<char>) -> bool {
        self.terms@.contains_key(name)
    }

    /// The identifier of an interned term.
    pub open spec fn id_of(&self, name: Seq<char>) -> TermId {
        self.terms@[name]
    }

    /// The dictionary's invariant: the two directions agree, and the next
    /// identifier is the number of terms.
    pub open spec fn wf(&self) -> bool {
        &&& self.next_id == self.term_ids@.len()
        &&& forall|name: Seq<char>| #[trigger]
            self.terms@.contains_key(name) ==> self.terms@[name].0 < self.term_ids@.len()
                && self.term_ids@[self.terms@[name].0 as int]@ == name
        &&& forall|i: int|
            0 <= i < self.term_ids@.len() ==> self.terms@.contains_key(
                #[trigger] self.term_ids@[i]@,
            ) && self.terms@[self.term_ids@[i]@].0 == i
    }

    /// A dictionary without terms.
    pub fn new() -> (r: TermDictionary)
        ensures
            r.wf(),
            r.next_id == 0,
            r.names() == Seq::<Seq<char>>::empty(),
            forall|name: Seq<char>| !r.has(name),
    {
        let r = TermDictionary { next_id: 0, terms: StringHashMap::new(), term_ids: Vec::new() };
        assert(r.names() =~= Seq::<Seq<char>>::empty());
        r
    }

    /// The identifier of `term`, which is interned first if it is new.
    /// Identifiers handed out before stay as they are.
    pub fn get_or_insert(&mut self, term: &str) -> (id: TermId)
        requires
            old(self).wf(),
            old(self).has(term@) || old(self).next_id < u32::MAX,
        ensures
            final(self).wf(),
            final(self).has(term@),
            final(self).id_of(term@) == id,
            old(self).has(term@) ==> id == old(self).id_of(term@) && final(self).names() == old(
                self,
            ).names() && final(self).terms@ == old(self).terms@,
            !old(self).has(term@) ==> id.0 == old(self).names().len() && final(self).names()
                == old(self).names().push(term@) && final(self).terms@ == old(self).terms@.insert(
                term@,
                id,
            ),
    {
        match self.terms.get(term) {
            Some(found) => *found,
            None => {
                let id = TermId(self.next_id);
                self.next_id = self.next_id + 1;
                self.terms.insert(term.to_owned(), id);
                self.term_ids.push(term.to_owned());
                proof {
                    assert(self.names() =~= old(self).names().push(term@));
                    assert forall|i: int| 0 <= i < self.term_ids@.len() implies self.terms@.contains_key(
                        #[trigger] self.term_ids@[i]@,
                    ) && self.terms@[self.term_ids@[i]@].0 == i by {
                        if i < old(self).term_ids@.len() {
                            assert(old(self).terms@.contains_key(old(self).term_ids@[i]@));
                        }
                    }
                }
                id
            },
        }
    }

    /// The identifier of `term`, if it has been interned.
    pub fn lookup_by_name(&self, term: &str) -> (r: Option<TermId>)
        ensures
            r == (if self.has(term@) {
                Some(self.id_of(term@))
            } else {
                None
            }),
    {
        match self.terms.get(term) {
            Some(found) => Some(*found),
            None => None,
        }
    }

    /// The term of `id`, if the identifier has been handed out.
    pub fn lookup_by_id(&self, id: TermId) -> (r: Option<&String>)
        requires
            self.wf(),
        ensures
            match r {
                Some(name) => id.0 < self.names().len() && name@ == self.names()[id.0 as int],
                None => id.0 >= self.names().len(),
            },
    {
        if id.0 < self.next_id {
            Some(&self.term_ids[id.0 as usize])
        } else {
            None
        }
    }
}

} // verus!
