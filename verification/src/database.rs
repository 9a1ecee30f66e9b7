//! The database: the dictionaries, one inverted index for each field, the
//! documents, the tombstones and the primary keys.

use vstd::prelude::*;
use vstd::hash_map::StringHashMap;
use crate::data_dictionary::DataDictionary;
use crate::ids::{DocumentId, FieldId, TermId};
use crate::index::{InvertedIndex, PostingView};
use crate::table::{IdSet, IdTable};
use crate::term_dictionary::TermDictionary;
use crate::tsvector::TSVector;

verus! {

/// What one document holds: a positional vector for each of its fields.
pub struct Document {
    pub fields: IdTable<TSVector>,
}

impl Document {
    /// The document's invariant.
    pub open spec fn wf(&self) -> bool {
        &&& self.fields.wf()
        &&& forall|f: u32| #[trigger]
            self.fields.map().contains_key(f) ==> self.fields.map()[f].wf()
    }

    /// Whether the document holds the field.
    pub open spec fn has(&self, field: u32) -> bool {
        self.fields.map().contains_key(field)
    }

    /// The document's vector for a field that it holds.
    pub open spec fn vector(&self, field: u32) -> TSVector {
        self.fields.map()[field]
    }

    /// A document without fields.
    pub fn new() -> (r: Document)
        ensures
            r.wf(),
            forall|f: u32| !r.has(f),
            r.fields.keys() == Seq::<u32>::empty(),
    {
        Document { fields: IdTable::new() }
    }
}

/// Why a document was not inserted.
#[derive(Debug, Clone, Copy, PartialEq, Eq, Structural)]
pub enum InsertError {
    /// A live document has the primary key already.
    AlreadyExists,
}

/// The number of documents among `docs` that hold `field`.
pub open spec fn documents_with(docs: Seq<Document>, field: u32) -> nat
    decreases docs.len(),
{
    if docs.len() == 0 {
        0
    } else {
        documents_with(docs.drop_last(), field) + if docs.last().has(field) {
            1nat
        } else {
            0nat
        }
    }
}

/// The sum of the lengths of `field` over the documents among `docs` that
/// hold it.
pub open spec fn tokens_in(docs: Seq<Document>, field: u32) -> nat
    decreases docs.len(),
{
    if docs.len() == 0 {
        0
    } else {
        tokens_in(docs.drop_last(), field) + if docs.last().has(field) {
            docs.last().vector(field).length as nat
        } else {
            0nat
        }
    }
}

/// The posting list of `term` in the index of `field`, empty where there is
/// no such index.
pub open spec fn list_in(indexes: Map<u32, InvertedIndex>, field: u32, term: TermId) -> Seq<
    PostingView,
> {
    if indexes.contains_key(field) {
        indexes[field].list(term)
    } else {
        Seq::empty()
    }
}

/// The number of vectors inserted into the index of `field`.
pub open spec fn documents_in(indexes: Map<u32, InvertedIndex>, field: u32) -> nat {
    if indexes.contains_key(field) {
        indexes[field].total_documents as nat
    } else {
        0
    }
}

/// The sum of the lengths of the vectors inserted into the index of `field`.
pub open spec fn terms_in(indexes: Map<u32, InvertedIndex>, field: u32) -> nat {
    if indexes.contains_key(field) {
        indexes[field].total_terms as nat
    } else {
        0
    }
}

/// The posting that a vector contributes for `term` on behalf of `doc`.
pub open spec fn posting_from(doc: DocumentId, vector: TSVector, term: u32) -> PostingView {
    PostingView {
        doc,
        positions: vector.entry(term).positions.to_set(),
        weight: vector.entry(term).weight,
    }
}

/// Whether `index` is what the index of `field` in `before` becomes when
/// `vector` is inserted into it for `doc`.
pub open spec fn extended(
    before: Map<u32, InvertedIndex>,
    index: InvertedIndex,
    field: u32,
    doc: DocumentId,
    vector: TSVector,
) -> bool {
    &&& index.wf()
    &&& index.newest == Some(doc)
    &&& index.total_documents == documents_in(before, field) + 1
    &&& index.total_terms == terms_in(before, field) + vector.length
    &&& forall|t: u32|
        #![trigger index.list(TermId(t))]
        index.list(TermId(t)) == if vector.has(t) {
            list_in(before, field, TermId(t)).push(posting_from(doc, vector, t))
        } else {
            list_in(before, field, TermId(t))
        }
}

/// No more documents hold a field than there are documents.
pub proof fn lemma_documents_with_bound(docs: Seq<Document>, field: u32)
    ensures
        documents_with(docs, field) <= docs.len(),
    decreases docs.len(),
{
    if docs.len() > 0 {
        lemma_documents_with_bound(docs.drop_last(), field);
    }
}

/// The database.
pub struct Database {
    pub next_document_id: u32,
    pub term_dictionary: TermDictionary,
    pub data_dictionary: DataDictionary,
    /// The inverted index of each field into which a document was inserted.
    pub fields: IdTable<InvertedIndex>,
    /// The documents, each at the place of its identifier.
    pub docs: Vec<Document>,
    /// The identifiers of the deleted documents.
    pub deleted_docs: IdSet,
    /// The identifier of each live document's primary key.
    pub pk_to_id: StringHashMap<DocumentId>,
    /// The primary key of each live document.
    pub id_to_pk: Vec<Option<String>>,
}

impl Default for Database {
    /// A database without fields, terms or documents.
    fn default() -> (r: Database)
        ensures
            r.wf(),
            r.next_document_id == 0,
            forall|d: DocumentId| !r.live(d),
            forall|pk: Seq<char>| r.pk_id(pk) is None,
    {
        Database::new()
    }
}

impl Database {
    /// The database's invariant.
    ///
    /// Every index is well-formed and holds only documents that were
    /// inserted. The statistics of the index of a field are the number of
    /// documents inserted with that field and the sum of the lengths that the
    /// field had in them. Primary keys and the identifiers of live documents
    /// correspond one to one.
    pub open spec fn wf(&self) -> bool {
        &&& self.term_dictionary.wf()
        &&& self.data_dictionary.wf()
        &&& self.fields.wf()
        &&& self.docs@.len() == self.next_document_id
        &&& self.id_to_pk@.len() == self.next_document_id
        &&& forall|d: u32| self.deleted_docs@.contains(d) ==> d < self.next_document_id
        &&& forall|f: u32| #[trigger]
            self.fields.map().contains_key(f) ==> {
                &&& self.fields.map()[f].wf()
                &&& self.fields.map()[f].newest is Some ==> self.fields.map()[f].newest.unwrap().0
                    < self.next_document_id
            }
        &&& forall|f: u32|
            #![trigger documents_in(self.fields.map(), f)]
            #![trigger terms_in(self.fields.map(), f)]
            documents_in(self.fields.map(), f) == documents_with(self.docs@, f) && terms_in(
                self.fields.map(),
                f,
            ) == tokens_in(self.docs@, f)
        &&& forall|pk: Seq<char>| #[trigger]
            self.pk_to_id@.contains_key(pk) ==> {
                &&& self.pk_to_id@[pk].0 < self.next_document_id
                &&& !self.deleted_docs@.contains(self.pk_to_id@[pk].0)
                &&& self.id_to_pk@[self.pk_to_id@[pk].0 as int] is Some
                &&& self.id_to_pk@[self.pk_to_id@[pk].0 as int].unwrap()@ == pk
            }
        &&& forall|d: int|
            0 <= d < self.id_to_pk@.len() && (#[trigger] self.id_to_pk@[d]) is Some ==> {
                &&& self.pk_to_id@.contains_key(self.id_to_pk@[d].unwrap()@)
                &&& self.pk_to_id@[self.id_to_pk@[d].unwrap()@].0 == d
            }
    }

    /// The posting list of `term` in the index of `field`.
    pub open spec fn list(&self, field: FieldId, term: TermId) -> Seq<PostingView> {
        list_in(self.fields.map(), field.0, term)
    }

    /// The identifier of the live document with the primary key `pk`.
    pub open spec fn pk_id(&self, pk: Seq<char>) -> Option<DocumentId> {
        if self.pk_to_id@.contains_key(pk) {
            Some(self.pk_to_id@[pk])
        } else {
            None
        }
    }

    /// Whether the document was inserted and has not been deleted.
    pub open spec fn live(&self, doc: DocumentId) -> bool {
        doc.0 < self.next_document_id && !self.deleted_docs@.contains(doc.0)
    }

    /// A database without fields, terms or documents.
    pub fn new() -> (r: Database)
        ensures
            r.wf(),
            r.next_document_id == 0,
            forall|d: DocumentId| !r.live(d),
            forall|pk: Seq<char>| r.pk_id(pk) is None,
    {
        Database {
            next_document_id: 0,
            term_dictionary: TermDictionary::new(),
            data_dictionary: DataDictionary::new(),
            fields: IdTable::new(),
            docs: Vec::new(),
            deleted_docs: IdSet::new(),
            pk_to_id: StringHashMap::new(),
            id_to_pk: Vec::new(),
        }
    }

    /// The identifier of the live document with the primary key `pk`.
    pub fn doc_id_by_pk(&self, pk: &str) -> (r: Option<DocumentId>)
        ensures
            r == self.pk_id(pk@),
    {
        match self.pk_to_id.get(pk) {
            Some(id) => Some(*id),
            None => None,
        }
    }

    /// The primary key of the live document `doc`.
    pub fn pk_by_doc_id(&self, doc: DocumentId) -> (r: Option<&String>)
        requires
            self.wf(),
        ensures
            match r {
                Some(pk) => self.pk_id(pk@) == Some(doc),
                None => forall|pk: Seq<char>| self.pk_id(pk) != Some(doc),
            },
    {
        if doc.0 < self.next_document_id {
            match &self.id_to_pk[doc.0 as usize] {
                Some(pk) => Some(pk),
                None => None,
            }
        } else {
            None
        }
    }

    /// Marks the document with the primary key `pk` as deleted and forgets
    /// the key. Its postings stay. Without such a document nothing changes.
    pub fn delete_document(&mut self, pk: &str)
        requires
            old(self).wf(),
        ensures
            final(self).wf(),
            final(self).pk_id(pk@) is None,
            final(self).pk_to_id@ == old(self).pk_to_id@.remove(pk@),
            final(self).deleted_docs@ == (match old(self).pk_id(pk@) {
                Some(id) => old(self).deleted_docs@.insert(id.0),
                None => old(self).deleted_docs@,
            }),
            final(self).next_document_id == old(self).next_document_id,
            final(self).fields == old(self).fields,
            final(self).docs == old(self).docs,
    {
        let found = self.doc_id_by_pk(pk);
        match found {
            Some(id) => {
                self.deleted_docs.insert(id.0);
                self.pk_to_id.remove(pk);
                self.id_to_pk[id.0 as usize] = None;
                proof {
                    assert forall|other: Seq<char>| #[trigger]
                        self.pk_to_id@.contains_key(other) implies self.pk_to_id@[other].0 != id.0 by {
                        assert(old(self).pk_to_id@.contains_key(other));
                        assert(old(self).id_to_pk@[id.0 as int].unwrap()@ == pk@);
                    }
                }
            },
            None => {
                assert(self.pk_to_id@ =~= old(self).pk_to_id@.remove(pk@));
            },
        }
    }

    /// Inserts `doc` under the primary key `pk`.
    ///
    /// The document gets the next identifier. Each of its vectors is inserted
    /// into the index of its field, which is made if this is the field's
    /// first document. A primary key that a live document has is refused, and
    /// nothing changes.
    pub fn insert_document(&mut self, pk: String, doc: Document) -> (r: Result<
        DocumentId,
        InsertError,
    >)
        requires
            old(self).wf(),
            doc.wf(),
            old(self).next_document_id < u32::MAX,
            forall|f: u32|
                doc.has(f) ==> terms_in(old(self).fields.map(), f) + doc.vector(f).length
                    <= usize::MAX,
        ensures
            old(self).pk_id(pk@) is Some ==> r == Err::<DocumentId, InsertError>(
                InsertError::AlreadyExists,
            ) && *final(self) == *old(self),
            old(self).pk_id(pk@) is None ==> {
                &&& r == Ok::<DocumentId, InsertError>(DocumentId(old(self).next_document_id))
                &&& final(self).wf()
                &&& final(self).next_document_id == old(self).next_document_id + 1
                &&& final(self).pk_id(pk@) == Some(DocumentId(old(self).next_document_id))
                &&& final(self).pk_to_id@ == old(self).pk_to_id@.insert(
                    pk@,
                    DocumentId(old(self).next_document_id),
                )
                &&& final(self).deleted_docs@ == old(self).deleted_docs@
                &&& final(self).docs@ == old(self).docs@.push(doc)
                &&& final(self).term_dictionary == old(self).term_dictionary
                &&& final(self).data_dictionary == old(self).data_dictionary
                &&& forall|f: u32, t: u32|
                    #![trigger final(self).list(FieldId(f), TermId(t))]
                    final(self).list(FieldId(f), TermId(t)) == if doc.has(f) && doc.vector(f).has(
                        t,
                    ) {
                        old(self).list(FieldId(f), TermId(t)).push(
                            posting_from(DocumentId(old(self).next_document_id), doc.vector(f), t),
                        )
                    } else {
                        old(self).list(FieldId(f), TermId(t))
                    }
            },
    {
        if self.pk_to_id.contains_key(pk.as_str()) {
            return Err(InsertError::AlreadyExists);
        }
        let id = DocumentId(self.next_document_id);
        let n = doc.fields.len();
        let ghost before = old(self).fields.map();
        let ghost keys = doc.fields.keys();
        proof {
            doc.fields.lemma_wf();
        }
        let mut i: usize = 0;
        while i < n
            invariant
                old(self).wf(),
                doc.wf(),
                keys == doc.fields.keys(),
                n == keys.len(),
                i <= n,
                before == old(self).fields.map(),
                id.0 == old(self).next_document_id,
                id.0 < u32::MAX,
                forall|f: u32|
                    doc.has(f) ==> terms_in(before, f) + doc.vector(f).length <= usize::MAX,
                self.fields.wf(),
                self.next_document_id == old(self).next_document_id,
                self.term_dictionary == old(self).term_dictionary,
                self.data_dictionary == old(self).data_dictionary,
                self.docs == old(self).docs,
                self.deleted_docs == old(self).deleted_docs,
                self.pk_to_id == old(self).pk_to_id,
                self.id_to_pk == old(self).id_to_pk,
                forall|f: u32|
                    #![trigger self.fields.map().contains_key(f)]
                    {
                        let touched = keys.take(i as int).contains(f);
                        &&& self.fields.map().contains_key(f) <==> before.contains_key(f)
                            || touched
                        &&& !touched && before.contains_key(f) ==> self.fields.map()[f]
                            == before[f]
                        &&& touched ==> extended(before, self.fields.map()[f], f, id, doc.vector(f))
                    },
            decreases n - i,
        {
            let field = doc.fields.key(i);
            let vector = doc.fields.value(i);
            let ghost current = self.fields.map();
            proof {
                doc.fields.lemma_wf();
                assert(doc.has(field));
                assert(vector.wf());
                assert(keys.take(i + 1) =~= keys.take(i as int).push(field));
                if keys.take(i as int).contains(field) {
                    let k = choose|k: int| 0 <= k < i && keys.take(i as int)[k] == field;
                    assert(keys[k] == keys[i as int]);
                }
                assert forall|f: u32| keys.take(i + 1).contains(f) <==> (f == field || keys.take(
                    i as int,
                ).contains(f)) by {
                    if keys.take(i as int).contains(f) {
                        let k = choose|k: int| 0 <= k < i && keys.take(i as int)[k] == f;
                        assert(keys.take(i + 1)[k] == f);
                    }
                    assert(keys.take(i + 1)[i as int] == field);
                }
                assert(current.contains_key(field) <==> before.contains_key(field));
                lemma_documents_with_bound(old(self).docs@, field);
                assert(documents_in(before, field) == documents_with(old(self).docs@, field));
            }
            match self.fields.find(field) {
                Some(slot) => {
                    assert(before.contains_key(field));
                    assert(current[field] == before[field]);
                    let index = self.fields.value_mut(slot);
                    index.insert_tsvector(id, vector);
                },
                None => {
                    let mut index = InvertedIndex::new();
                    index.insert_tsvector(id, vector);
                    self.fields.push(field, index);
                },
            }
            proof {
                let now = self.fields.map();
                assert(now.contains_key(field));
                assert(extended(before, now[field], field, id, doc.vector(field)));
                assert forall|f: u32| f != field implies (now.contains_key(f)
                    <==> current.contains_key(f)) && (current.contains_key(f) ==> now[f]
                    == current[f]) by {}
            }
            i += 1;
        }
        let copy = pk.clone();
        let ghost filled = *self;
        self.docs.push(doc);
        self.id_to_pk.push(Some(copy));
        self.pk_to_id.insert(pk, id);
        self.next_document_id = self.next_document_id + 1;
        proof {
            let now = self.fields.map();
            assert(now == filled.fields.map());
            assert(keys.take(n as int) =~= keys);
            assert forall|f: u32| doc.has(f) == keys.contains(f) by {}
            assert(self.docs@.drop_last() =~= old(self).docs@);
            assert forall|f: u32|
                #![trigger documents_in(self.fields.map(), f)]
                #![trigger terms_in(self.fields.map(), f)]
                documents_in(self.fields.map(), f) == documents_with(self.docs@, f) && terms_in(
                    self.fields.map(),
                    f,
                ) == tokens_in(self.docs@, f) by {
                assert(now.contains_key(f) <==> before.contains_key(f) || keys.contains(f));
                assert(documents_in(before, f) == documents_with(old(self).docs@, f));
                assert(terms_in(before, f) == tokens_in(old(self).docs@, f));
            }
            assert forall|f: u32| #[trigger] now.contains_key(f) implies now[f].wf() && (
            now[f].newest is Some ==> now[f].newest.unwrap().0 < self.next_document_id) by {
                assert(now.contains_key(f) <==> before.contains_key(f) || keys.contains(f));
            }
            assert forall|f: u32, t: u32|
                #![trigger self.list(FieldId(f), TermId(t))]
                self.list(FieldId(f), TermId(t)) == if doc.has(f) && doc.vector(f).has(t) {
                    old(self).list(FieldId(f), TermId(t)).push(posting_from(id, doc.vector(f), t))
                } else {
                    old(self).list(FieldId(f), TermId(t))
                } by {
                assert(now.contains_key(f) <==> before.contains_key(f) || keys.contains(f));
                if keys.contains(f) {
                    assert(extended(before, now[f], f, id, doc.vector(f)));
                    assert(now[f].list(TermId(t)) == if doc.vector(f).has(t) {
                        list_in(before, f, TermId(t)).push(posting_from(id, doc.vector(f), t))
                    } else {
                        list_in(before, f, TermId(t))
                    });
                }
            }
            assert forall|d: int|
                0 <= d < self.id_to_pk@.len() && (#[trigger] self.id_to_pk@[d]) is Some implies self.pk_to_id@.contains_key(
                self.id_to_pk@[d].unwrap()@,
            ) && self.pk_to_id@[self.id_to_pk@[d].unwrap()@].0 == d by {
                if d < old(self).id_to_pk@.len() {
                    assert(old(self).id_to_pk@[d] is Some);
                }
            }
            assert forall|other: Seq<char>| #[trigger]
                self.pk_to_id@.contains_key(other) implies self.pk_to_id@[other].0
                < self.next_document_id && !self.deleted_docs@.contains(self.pk_to_id@[other].0)
                && self.id_to_pk@[self.pk_to_id@[other].0 as int] is Some
                && self.id_to_pk@[self.pk_to_id@[other].0 as int].unwrap()@ == other by {
                if other != pk@ {
                    assert(old(self).pk_to_id@.contains_key(other));
                }
            }
        }
        Ok(id)
    }
}

} // verus!
