//! The inverted index of one field: for each term the documents that hold
//! it, with positions and weight, and the statistics that scoring needs.

use vstd::prelude::*;
use crate::ids::{rising, DocumentId, TermId};
use crate::scalar::Scalar;
use crate::table::{IdTable, PositionSet};
use crate::tsvector::TSVector;

verus! {

/// One document's occurrences of one term.
pub struct Posting {
    pub doc: DocumentId,
    pub positions: PositionSet,
    pub weight: Scalar,
}

/// The mathematical value of a [`Posting`].
pub ghost struct PostingView {
    pub doc: DocumentId,
    pub positions: Set<usize>,
    pub weight: Scalar,
}

impl View for Posting {
    type V = PostingView;

    open spec fn view(&self) -> PostingView {
        PostingView { doc: self.doc, positions: self.positions@, weight: self.weight }
    }
}

/// The values of a posting list, one for one.
pub open spec fn posting_views(list: Seq<Posting>) -> Seq<PostingView> {
    Seq::new(list.len(), |i: int| list[i]@)
}

/// Whether the documents of a posting list come in strictly rising order.
pub open spec fn ascending(list: Seq<PostingView>) -> bool {
    forall|i: int, j: int| 0 <= i < j < list.len() ==> list[i].doc.0 < list[j].doc.0
}

/// Whether `doc` has a posting in `list`.
pub open spec fn lists_doc(list: Seq<PostingView>, doc: DocumentId) -> bool {
    exists|i: int| 0 <= i < list.len() && list[i].doc == doc
}

/// The posting of `doc` in `list`, where it has one.
pub open spec fn posting_of(list: Seq<PostingView>, doc: DocumentId) -> PostingView {
    list[choose|i: int| 0 <= i < list.len() && list[i].doc == doc]
}

/// The positions of `doc` in `list`: none where it has no posting.
pub open spec fn positions_in(list: Seq<PostingView>, doc: DocumentId) -> Set<usize> {
    if lists_doc(list, doc) {
        posting_of(list, doc).positions
    } else {
        Set::empty()
    }
}

/// The sum of the numbers of distinct positions over a posting list.
pub open spec fn occurrences(list: Seq<PostingView>) -> nat
    decreases list.len(),
{
    if list.len() == 0 {
        0
    } else {
        occurrences(list.drop_last()) + list.last().positions.len()
    }
}

/// The factor by which a posting's weight is scaled: the inverse of the
/// base-2 logarithm of the document frequency plus one, times the inverse of
/// documents per term.
pub open spec fn normalizer_spec(doc_frequency: usize, total_documents: usize, total_terms: usize)
    -> Scalar {
    Scalar::mul_spec(
        Scalar::div_spec(
            Scalar::one_spec(),
            Scalar::log2_spec(Scalar::add_spec(Scalar::Count(doc_frequency), Scalar::one_spec())),
        ),
        Scalar::div_spec(
            Scalar::one_spec(),
            Scalar::div_spec(Scalar::Count(total_documents), Scalar::Count(total_terms)),
        ),
    )
}

/// The inverted index of one field.
pub struct InvertedIndex {
    /// The posting lists, keyed by term.
    pub postings: IdTable<Vec<Posting>>,
    /// The number of vectors inserted.
    pub total_documents: usize,
    /// The sum of the lengths of the vectors inserted.
    pub total_terms: usize,
    /// The document inserted last.
    pub newest: Option<DocumentId>,
}

impl Default for InvertedIndex {
    /// An index without documents.
    fn default() -> (r: InvertedIndex)
        ensures
            r.wf(),
            r.total_documents == 0,
            r.total_terms == 0,
            r.newest is None,
            forall|t: TermId| r.list(t) == Seq::<PostingView>::empty(),
    {
        InvertedIndex::new()
    }
}

impl InvertedIndex {
    /// The posting list of `term`: empty where the index has none.
    pub open spec fn list(&self, term: TermId) -> Seq<PostingView> {
        if self.postings.map().contains_key(term.0) {
            posting_views(self.postings.map()[term.0]@)
        } else {
            Seq::empty()
        }
    }

    /// The index's invariant: in each posting list the documents rise, and
    /// none is later than the newest.
    pub open spec fn wf(&self) -> bool {
        &&& self.postings.wf()
        &&& forall|t: u32| ascending(#[trigger] self.list(TermId(t)))
        &&& forall|t: u32, i: int|
            0 <= i < self.list(TermId(t)).len() ==> self.newest is Some && (
            #[trigger] self.list(TermId(t))[i]).doc.0 <= self.newest.unwrap().0
    }

    /// Whether `doc` is later than every document inserted so far.
    pub open spec fn admits(&self, doc: DocumentId) -> bool {
        self.newest is None || self.newest.unwrap().0 < doc.0
    }

    /// The scaling factor of `term`.
    pub open spec fn normalizer(&self, term: TermId) -> Scalar {
        normalizer_spec(self.list(term).len() as usize, self.total_documents, self.total_terms)
    }

    /// An index without documents.
    pub fn new() -> (r: InvertedIndex)
        ensures
            r.wf(),
            r.total_documents == 0,
            r.total_terms == 0,
            r.newest is None,
            forall|t: TermId| r.list(t) == Seq::<PostingView>::empty(),
    {
        InvertedIndex {
            postings: IdTable::new(),
            total_documents: 0,
            total_terms: 0,
            newest: None,
        }
    }

    /// Whether `doc` may be inserted next.
    pub fn can_insert(&self, doc: DocumentId) -> (r: bool)
        ensures
            r == self.admits(doc),
    {
        match self.newest {
            None => true,
            Some(last) => last.0 < doc.0,
        }
    }

    /// Appends to the posting list of each term of `vector` a posting for
    /// `doc` with the term's positions, as a set, and its weight, and counts
    /// the vector in the statistics.
    pub fn insert_tsvector(&mut self, doc: DocumentId, vector: &TSVector)
        requires
            old(self).wf(),
            vector.wf(),
            old(self).admits(doc),
            old(self).total_documents < usize::MAX,
            old(self).total_terms + vector.length <= usize::MAX,
        ensures
            final(self).wf(),
            final(self).newest == Some(doc),
            final(self).total_documents == old(self).total_documents + 1,
            final(self).total_terms == old(self).total_terms + vector.length,
            forall|t: u32|
                #![trigger final(self).list(TermId(t))]
                final(self).list(TermId(t)) == if vector.has(t) {
                    old(self).list(TermId(t)).push(
                        PostingView {
                            doc,
                            positions: vector.entry(t).positions.to_set(),
                            weight: vector.entry(t).weight,
                        },
                    )
                } else {
                    old(self).list(TermId(t))
                },
    {
        let n = vector.terms.len();
        let mut i: usize = 0;
        proof {
            vector.terms.lemma_wf();
        }
        while i < n
            invariant
                n == vector.terms.keys().len(),
                i <= n,
                vector.wf(),
                self.postings.wf(),
                self.total_documents == old(self).total_documents,
                self.total_terms == old(self).total_terms,
                forall|t: u32|
                    #![trigger self.list(TermId(t))]
                    self.list(TermId(t)) == if vector.terms.keys().take(i as int).contains(t) {
                        old(self).list(TermId(t)).push(
                            PostingView {
                                doc,
                                positions: vector.entry(t).positions.to_set(),
                                weight: vector.entry(t).weight,
                            },
                        )
                    } else {
                        old(self).list(TermId(t))
                    },
            decreases n - i,
        {
            let term = vector.terms.key(i);
            let info = vector.terms.value(i);
            let posting = Posting {
                doc,
                positions: PositionSet::from_positions(&info.positions),
                weight: info.weight.duplicate(),
            };
            let ghost before = *self;
            let ghost pv = posting@;
            proof {
                vector.terms.lemma_wf();
                let keys = vector.terms.keys();
                assert(keys.take(i + 1) =~= keys.take(i as int).push(term));
                assert(!keys.take(i as int).contains(term)) by {
                    if keys.take(i as int).contains(term) {
                        let k = choose|k: int| 0 <= k < i && keys.take(i as int)[k] == term;
                        assert(keys[k] == keys[i as int]);
                    }
                }
                assert forall|t: u32| keys.take(i + 1).contains(t) <==> (t == term || keys.take(
                    i as int,
                ).contains(t)) by {
                    if keys.take(i as int).contains(t) {
                        let k = choose|k: int| 0 <= k < i && keys.take(i as int)[k] == t;
                        assert(keys.take(i + 1)[k] == t);
                    }
                    assert(keys.take(i + 1)[i as int] == term);
                }
                assert(before.list(TermId(term)) == old(self).list(TermId(term)));
            }
            match self.postings.find(term) {
                Some(slot) => {
                    let list = self.postings.value_mut(slot);
                    let ghost prior = list@;
                    list.push(posting);
                    proof {
                        assert(posting_views(prior.push(posting)) =~= posting_views(prior).push(pv));
                    }
                },
                None => {
                    let mut list: Vec<Posting> = Vec::new();
                    list.push(posting);
                    proof {
                        assert(posting_views(list@) =~= Seq::<PostingView>::empty().push(pv));
                    }
                    self.postings.push(term, list);
                },
            }
            proof {
                assert(self.list(TermId(term)) == before.list(TermId(term)).push(pv));
                assert forall|t: u32| t != term implies #[trigger] self.list(TermId(t))
                    == before.list(TermId(t)) by {}
            }
            i += 1;
        }
        let ghost filled = *self;
        self.total_documents += 1;
        self.total_terms += vector.length;
        self.newest = Some(doc);
        proof {
            let keys = vector.terms.keys();
            assert(keys.take(n as int) =~= keys);
            assert(self.postings == filled.postings);
            assert forall|t: u32| #[trigger] self.list(TermId(t)) == filled.list(TermId(t)) by {}
            assert forall|t: u32| vector.has(t) == keys.contains(t) by {}
            assert forall|t: u32| ascending(#[trigger] self.list(TermId(t))) by {
                let prior = old(self).list(TermId(t));
                assert(ascending(prior));
                if vector.has(t) {
                    let now = self.list(TermId(t));
                    assert(now.len() == prior.len() + 1);
                    assert(now[prior.len() as int].doc == doc);
                    assert forall|a: int, b: int| 0 <= a < b < now.len() implies now[a].doc.0
                        < now[b].doc.0 by {
                        if b == prior.len() {
                            assert(prior[a].doc.0 <= old(self).newest.unwrap().0);
                        } else {
                            assert(prior[a].doc.0 < prior[b].doc.0);
                        }
                    }
                }
            }
            assert forall|t: u32, k: int| 0 <= k < self.list(TermId(t)).len() implies (
            #[trigger] self.list(TermId(t))[k]).doc.0 <= doc.0 by {
                let prior = old(self).list(TermId(t));
                if k < prior.len() {
                    assert(prior[k].doc.0 <= old(self).newest.unwrap().0);
                }
            }
        }
    }

    /// The number of documents that hold `term`.
    pub fn term_document_frequency(&self, term: TermId) -> (n: usize)
        requires
            self.wf(),
        ensures
            n == self.list(term).len(),
    {
        match self.postings.find(term.0) {
            Some(slot) => self.postings.value(slot).len(),
            None => 0,
        }
    }

    /// The number of occurrences of `term` in all documents: the sum over its
    /// postings of the number of distinct positions. Nothing where the sum
    /// is beyond the machine's range.
    pub fn term_total_frequency(&self, term: TermId) -> (r: Option<usize>)
        requires
            self.wf(),
        ensures
            match r {
                Some(n) => n == occurrences(self.list(term)),
                None => occurrences(self.list(term)) > usize::MAX,
            },
    {
        match self.postings.find(term.0) {
            Some(slot) => {
                let list = self.postings.value(slot);
                let ghost views = posting_views(list@);
                let mut total: usize = 0;
                let mut i: usize = 0;
                while i < list.len()
                    invariant
                        i <= list.len(),
                        views == posting_views(list@),
                        views == self.list(term),
                        total == occurrences(views.take(i as int)),
                    decreases list.len() - i,
                {
                    proof {
                        assert(views.take(i + 1).drop_last() =~= views.take(i as int));
                        lemma_occurrences_rise(views, i + 1);
                    }
                    let more = list[i].positions.len();
                    proof {
                        assert(views.take(i + 1).last() == views[i as int]);
                        assert(occurrences(views.take(i + 1)) == total + more);
                    }
                    if more > usize::MAX - total {
                        assert(occurrences(self.list(term)) > usize::MAX);
                        return None;
                    }
                    total = total + more;
                    i += 1;
                }
                assert(views.take(list.len() as int) =~= views);
                Some(total)
            },
            None => Some(0),
        }
    }

    /// The documents that hold `term`, in the order of insertion.
    pub fn docs_with_term(&self, term: TermId) -> (docs: Vec<DocumentId>)
        requires
            self.wf(),
        ensures
            docs@.len() == self.list(term).len(),
            forall|i: int| 0 <= i < docs@.len() ==> docs@[i] == self.list(term)[i].doc,
    {
        let mut docs: Vec<DocumentId> = Vec::new();
        match self.postings.find(term.0) {
            Some(slot) => {
                let list = self.postings.value(slot);
                let mut i: usize = 0;
                while i < list.len()
                    invariant
                        i <= list.len(),
                        docs@.len() == i,
                        forall|k: int| 0 <= k < i ==> docs@[k] == list@[k].doc,
                    decreases list.len() - i,
                {
                    docs.push(list[i].doc);
                    i += 1;
                }
            },
            None => {},
        }
        docs
    }

    /// The scaling factor of `term`.
    pub fn calculate_normalizer(&self, term: TermId) -> (r: Scalar)
        requires
            self.wf(),
        ensures
            r == self.normalizer(term),
    {
        let frequency = self.term_document_frequency(term);
        let inverse_document_frequency = Scalar::quotient(
            Scalar::one(),
            Scalar::log2(Scalar::sum(Scalar::Count(frequency), Scalar::one())),
        );
        let field_length_normalizer = Scalar::quotient(
            Scalar::one(),
            Scalar::quotient(Scalar::Count(self.total_documents), Scalar::Count(self.total_terms)),
        );
        Scalar::product(inverse_document_frequency, field_length_normalizer)
    }

    /// The documents that hold `term`, in the order of insertion, each with
    /// its score: the posting's weight times the term's scaling factor.
    pub fn search(&self, term: TermId) -> (hits: Vec<(DocumentId, Scalar)>)
        requires
            self.wf(),
        ensures
            hits@.len() == self.list(term).len(),
            forall|i: int|
                0 <= i < hits@.len() ==> hits@[i].0 == self.list(term)[i].doc && hits@[i].1
                    == Scalar::mul_spec(self.list(term)[i].weight, self.normalizer(term)),
    {
        let mut hits: Vec<(DocumentId, Scalar)> = Vec::new();
        match self.postings.find(term.0) {
            Some(slot) => {
                let list = self.postings.value(slot);
                let normalizer = self.calculate_normalizer(term);
                let mut i: usize = 0;
                while i < list.len()
                    invariant
                        self.wf(),
                        i <= list.len(),
                        hits@.len() == i,
                        normalizer == self.normalizer(term),
                        posting_views(list@) == self.list(term),
                        forall|k: int|
                            0 <= k < i ==> hits@[k].0 == list@[k].doc && hits@[k].1
                                == Scalar::mul_spec(list@[k].weight, self.normalizer(term)),
                    decreases list.len() - i,
                {
                    hits.push(
                        (
                            list[i].doc,
                            Scalar::product(list[i].weight.duplicate(), normalizer.duplicate()),
                        ),
                    );
                    i += 1;
                }
            },
            None => {},
        }
        hits
    }

    /// The positions at which `doc` holds `term`.
    pub open spec fn positions(&self, term: TermId, doc: DocumentId) -> Set<usize> {
        positions_in(self.list(term), doc)
    }

    /// Whether `doc` holds the terms at consecutive positions from `start` on.
    pub open spec fn phrase_at(&self, terms: Seq<TermId>, doc: DocumentId, start: int) -> bool {
        forall|j: int|
            0 <= j < terms.len() ==> start + j <= usize::MAX && self.positions(
                #[trigger] terms[j],
                doc,
            ).contains((start + j) as usize)
    }

    /// Whether `doc` holds the terms, one or more, at consecutive positions.
    pub open spec fn has_phrase(&self, terms: Seq<TermId>, doc: DocumentId) -> bool {
        terms.len() > 0 && exists|start: int| 0 <= start && self.phrase_at(terms, doc, start)
    }

    /// The score of `doc` for the first `n` terms of a phrase that it holds:
    /// for each term the posting's weight times the term's scaling factor,
    /// added up from the first term on.
    pub open spec fn phrase_score(&self, terms: Seq<TermId>, doc: DocumentId, n: nat) -> Scalar
        decreases n,
    {
        if n == 0 {
            Scalar::zero_spec()
        } else {
            let part = Scalar::mul_spec(
                posting_of(self.list(terms[n - 1]), doc).weight,
                self.normalizer(terms[n - 1]),
            );
            if n == 1 {
                part
            } else {
                Scalar::add_spec(self.phrase_score(terms, doc, (n - 1) as nat), part)
            }
        }
    }

    /// The places of the terms' posting lists, if every term has one.
    fn phrase_slots(&self, terms: &Vec<TermId>) -> (r: Option<Vec<usize>>)
        requires
            self.wf(),
        ensures
            match r {
                Some(slots) => slots@.len() == terms@.len() && forall|j: int|
                    0 <= j < terms@.len() ==> self.slot_of(#[trigger] slots@[j], terms@[j]),
                None => exists|j: int|
                    0 <= j < terms@.len() && self.list(terms@[j]) == Seq::<PostingView>::empty(),
            },
    {
        let mut slots: Vec<usize> = Vec::new();
        let mut j: usize = 0;
        while j < terms.len()
            invariant
                self.wf(),
                j <= terms.len(),
                slots@.len() == j,
                forall|i: int| 0 <= i < j ==> self.slot_of(#[trigger] slots@[i], terms@[i]),
            decreases terms.len() - j,
        {
            match self.postings.find(terms[j].0) {
                Some(slot) => {
                    slots.push(slot);
                },
                None => {
                    return None;
                },
            }
            j += 1;
        }
        Some(slots)
    }

    /// Whether the posting list of `term` stands at place `slot`.
    pub open spec fn slot_of(&self, slot: usize, term: TermId) -> bool {
        &&& slot < self.postings.keys().len()
        &&& self.postings.keys()[slot as int] == term.0
        &&& self.postings.map().contains_key(term.0)
        &&& self.postings.map()[term.0] == self.postings.values()[slot as int]
    }

    /// Whether `normalizers` holds the scaling factor of each term.
    pub open spec fn normalizers_of(&self, terms: Seq<TermId>, normalizers: Seq<Scalar>) -> bool {
        &&& normalizers.len() == terms.len()
        &&& forall|j: int|
            0 <= j < terms.len() ==> #[trigger] normalizers[j] == self.normalizer(terms[j])
    }

    /// The scaling factor of each term.
    fn phrase_normalizers(&self, terms: &Vec<TermId>) -> (normalizers: Vec<Scalar>)
        requires
            self.wf(),
        ensures
            self.normalizers_of(terms@, normalizers@),
    {
        let mut normalizers: Vec<Scalar> = Vec::new();
        let mut j: usize = 0;
        while j < terms.len()
            invariant
                self.wf(),
                j <= terms.len(),
                normalizers@.len() == j,
                forall|i: int|
                    0 <= i < j ==> #[trigger] normalizers@[i] == self.normalizer(terms@[i]),
            decreases terms.len() - j,
        {
            normalizers.push(self.calculate_normalizer(terms[j]));
            j += 1;
        }
        normalizers
    }

    /// Whether `places` names, for each term, the posting of `doc` in the
    /// term's list.
    pub open spec fn places_of(&self, terms: Seq<TermId>, doc: DocumentId, places: Seq<usize>)
        -> bool {
        &&& places.len() == terms.len()
        &&& forall|j: int|
            0 <= j < terms.len() ==> (#[trigger] places[j]) < self.list(terms[j]).len()
                && self.list(terms[j])[places[j] as int].doc == doc
    }

    /// Where `doc` holds the phrase: the places of its postings, one for
    /// each term. Nothing where it does not hold the phrase.
    fn phrase_places(&self, terms: &Vec<TermId>, slots: &Vec<usize>, doc: DocumentId) -> (r:
        Option<Vec<usize>>)
        requires
            self.wf(),
            terms@.len() > 0,
            slots@.len() == terms@.len(),
            forall|j: int| 0 <= j < terms@.len() ==> self.slot_of(#[trigger] slots@[j], terms@[j]),
        ensures
            r is Some == self.has_phrase(terms@, doc),
            r is Some ==> self.places_of(terms@, doc, r.unwrap()@),
    {
        let k = terms.len();
        let mut places: Vec<usize> = Vec::new();
        let first = self.postings.value(slots[0]);
        assert(self.slot_of(slots@[0], terms@[0]));
        assert(posting_views(first@) == self.list(terms@[0]));
        let mut candidates: Vec<usize> = match find_posting(first, doc) {
            Some(m) => {
                proof {
                    lemma_posting_of(self.list(terms@[0]), doc, m as int);
                }
                places.push(m);
                first[m].positions.to_vec()
            },
            None => {
                proof {
                    assert forall|start: int| !self.phrase_at(terms@, doc, start) by {
                        assert(self.positions(terms@[0], doc) =~= Set::<usize>::empty());
                    }
                }
                return None;
            },
        };
        assert(candidates@.to_set() =~= self.positions(terms@[0], doc));
        assert forall|c: usize| candidates@.contains(c) <==> self.phrase_at(
            terms@.take(1),
            doc,
            c as int,
        ) by {
            let head = terms@.take(1);
            assert(head[0] == terms@[0]);
            assert(candidates@.to_set().contains(c) == candidates@.contains(c));
            if self.phrase_at(head, doc, c as int) {
                assert(self.positions(head[0], doc).contains((c + 0) as usize));
            }
        }
        let mut j: usize = 1;
        while j < k
            invariant
                self.wf(),
                k == terms@.len(),
                1 <= j <= k,
                slots@.len() == terms@.len(),
                forall|i: int|
                    0 <= i < terms@.len() ==> self.slot_of(#[trigger] slots@[i], terms@[i]),
                places@.len() == j,
                forall|i: int|
                    0 <= i < j ==> (#[trigger] places@[i]) < self.list(terms@[i]).len()
                        && self.list(terms@[i])[places@[i] as int].doc == doc,
                forall|c: usize|
                    candidates@.contains(c) <==> c - (j - 1) >= 0 && self.phrase_at(
                        terms@.take(j as int),
                        doc,
                        c - (j - 1),
                    ),
            decreases k - j,
        {
            let list = self.postings.value(slots[j]);
            assert(self.slot_of(slots@[j as int], terms@[j as int]));
            assert(posting_views(list@) == self.list(terms@[j as int]));
            let ghost here = self.positions(terms@[j as int], doc);
            let ghost before = candidates@;
            match find_posting(list, doc) {
                Some(m) => {
                    proof {
                        lemma_posting_of(self.list(terms@[j as int]), doc, m as int);
                    }
                    candidates = advance(&candidates, &list[m].positions);
                    places.push(m);
                },
                None => {
                    proof {
                        assert forall|start: int| !self.phrase_at(terms@, doc, start) by {
                            assert(self.positions(terms@[j as int], doc) =~= Set::<usize>::empty());
                        }
                    }
                    return None;
                },
            }
            proof {
                let shorter = terms@.take(j as int);
                let longer = terms@.take(j + 1);
                assert forall|c: usize|
                    candidates@.contains(c) <==> c - j >= 0 && self.phrase_at(
                        longer,
                        doc,
                        c - j,
                    ) by {
                    let start = c - j;
                    if candidates@.contains(c) {
                        let p = (c - 1) as usize;
                        assert(before.contains(p));
                        assert(self.phrase_at(shorter, doc, p - (j - 1)));
                        assert forall|i: int| 0 <= i < longer.len() implies start + i
                            <= usize::MAX && self.positions(#[trigger] longer[i], doc).contains(
                            (start + i) as usize,
                        ) by {
                            if i < j {
                                assert(shorter[i] == longer[i]);
                            }
                        }
                    }
                    if start >= 0 && self.phrase_at(longer, doc, start) {
                        assert(longer[j as int] == terms@[j as int]);
                        assert(here.contains((start + j) as usize));
                        assert forall|i: int| 0 <= i < shorter.len() implies start + i
                            <= usize::MAX && self.positions(
                            #[trigger] shorter[i],
                            doc,
                        ).contains((start + i) as usize) by {
                            assert(shorter[i] == longer[i]);
                        }
                        let p = (c - 1) as usize;
                        assert(self.phrase_at(shorter, doc, p - (j - 1)));
                    }
                }
            }
            j += 1;
        }
        proof {
            assert(terms@.take(k as int) =~= terms@);
            if candidates@.len() > 0 {
                let c = candidates@[0];
                assert(candidates@.contains(c));
                assert(self.phrase_at(terms@, doc, c - (k - 1)));
            }
            if self.has_phrase(terms@, doc) {
                let start = choose|start: int| 0 <= start && self.phrase_at(terms@, doc, start);
                let last = k - 1;
                let term = terms@[last];
                assert(start + last <= usize::MAX);
                assert(self.positions(term, doc).contains((start + last) as usize));
                let c = (start + last) as usize;
                assert(c - (k - 1) == start);
                assert(candidates@.contains(c));
            }
        }
        if candidates.len() > 0 {
            Some(places)
        } else {
            None
        }
    }

    /// The score of a document that holds the phrase, from the places of its
    /// postings.
    fn phrase_total(
        &self,
        terms: &Vec<TermId>,
        slots: &Vec<usize>,
        normalizers: &Vec<Scalar>,
        doc: DocumentId,
        places: &Vec<usize>,
    ) -> (r: Scalar)
        requires
            self.wf(),
            terms@.len() > 0,
            slots@.len() == terms@.len(),
            forall|j: int| 0 <= j < terms@.len() ==> self.slot_of(#[trigger] slots@[j], terms@[j]),
            self.normalizers_of(terms@, normalizers@),
            self.places_of(terms@, doc, places@),
        ensures
            r == self.phrase_score(terms@, doc, terms@.len()),
    {
        let k = terms.len();
        let mut total = Scalar::zero();
        let mut j: usize = 0;
        while j < k
            invariant
                self.wf(),
                k == terms@.len(),
                j <= k,
                slots@.len() == terms@.len(),
                forall|i: int|
                    0 <= i < terms@.len() ==> self.slot_of(#[trigger] slots@[i], terms@[i]),
                self.normalizers_of(terms@, normalizers@),
                self.places_of(terms@, doc, places@),
                total == self.phrase_score(terms@, doc, j as nat),
            decreases k - j,
        {
            let list = self.postings.value(slots[j]);
            assert(self.slot_of(slots@[j as int], terms@[j as int]));
            assert(posting_views(list@) == self.list(terms@[j as int]));
            let m = places[j];
            assert(places@[j as int] < self.list(terms@[j as int]).len());
            proof {
                lemma_posting_of(self.list(terms@[j as int]), doc, m as int);
            }
            assert(normalizers@[j as int] == self.normalizer(terms@[j as int]));
            let part = Scalar::product(list[m].weight.duplicate(), normalizers[j].duplicate());
            if j == 0 {
                total = part;
            } else {
                total = Scalar::sum(total, part);
            }
            j += 1;
        }
        total
    }

    /// The documents that hold the terms at consecutive positions, in the
    /// order of insertion.
    pub fn docs_with_phrase(&self, terms: &Vec<TermId>) -> (docs: Vec<DocumentId>)
        requires
            self.wf(),
        ensures
            forall|d: DocumentId| docs@.contains(d) <==> self.has_phrase(terms@, d),
            rising(docs@),
    {
        let hits = self.phrase_scan(terms, false);
        let mut docs: Vec<DocumentId> = Vec::new();
        let mut i: usize = 0;
        while i < hits.len()
            invariant
                i <= hits.len(),
                docs@.len() == i,
                forall|k: int| 0 <= k < i ==> docs@[k] == hits@[k].0,
            decreases hits.len() - i,
        {
            docs.push(hits[i].0);
            i += 1;
        }
        proof {
            assert(docs@ =~= hit_docs(hits@));
        }
        docs
    }

    /// The documents that hold the terms at consecutive positions, in the
    /// order of insertion, each with its score.
    pub fn phrase_search(&self, terms: &Vec<TermId>) -> (hits: Vec<(DocumentId, Scalar)>)
        requires
            self.wf(),
        ensures
            forall|d: DocumentId| hit_docs(hits@).contains(d) <==> self.has_phrase(terms@, d),
            rising(hit_docs(hits@)),
            forall|i: int|
                0 <= i < hits@.len() ==> (#[trigger] hits@[i]).1 == self.phrase_score(
                    terms@,
                    hits@[i].0,
                    terms@.len(),
                ),
    {
        self.phrase_scan(terms, true)
    }

    /// The documents that hold the phrase, in the order of insertion; with
    /// `scored`, each with its score.
    fn phrase_scan(&self, terms: &Vec<TermId>, scored: bool) -> (hits: Vec<(DocumentId, Scalar)>)
        requires
            self.wf(),
        ensures
            forall|d: DocumentId| hit_docs(hits@).contains(d) <==> self.has_phrase(terms@, d),
            rising(hit_docs(hits@)),
            scored ==> forall|i: int|
                0 <= i < hits@.len() ==> (#[trigger] hits@[i]).1 == self.phrase_score(
                    terms@,
                    hits@[i].0,
                    terms@.len(),
                ),
    {
        let mut hits: Vec<(DocumentId, Scalar)> = Vec::new();
        if terms.len() == 0 {
            assert(hit_docs(hits@) =~= Seq::<DocumentId>::empty());
            return hits;
        }
        let slots = match self.phrase_slots(terms) {
            Some(slots) => slots,
            None => {
                proof {
                    let j = choose|j: int|
                        0 <= j < terms@.len() && self.list(terms@[j]) == Seq::<
                            PostingView,
                        >::empty();
                    assert forall|d: DocumentId| !self.has_phrase(terms@, d) by {
                        assert forall|start: int| !self.phrase_at(terms@, d, start) by {
                            assert(self.positions(terms@[j], d) =~= Set::<usize>::empty());
                        }
                    }
                    assert(hit_docs(hits@) =~= Seq::<DocumentId>::empty());
                }
                return hits;
            },
        };
        let normalizers = if scored {
            self.phrase_normalizers(terms)
        } else {
            Vec::new()
        };
        let first = self.postings.value(slots[0]);
        assert(self.slot_of(slots@[0], terms@[0]));
        let ghost list = self.list(terms@[0]);
        assert(posting_views(first@) == list);
        let mut m: usize = 0;
        assert(hit_docs(hits@) =~= Seq::<DocumentId>::empty());
        while m < first.len()
            invariant
                self.wf(),
                terms@.len() > 0,
                slots@.len() == terms@.len(),
                forall|j: int|
                    0 <= j < terms@.len() ==> self.slot_of(#[trigger] slots@[j], terms@[j]),
                m <= first.len(),
                scored ==> self.normalizers_of(terms@, normalizers@),
                list == self.list(terms@[0]),
                posting_views(first@) == list,
                forall|d: DocumentId|
                    hit_docs(hits@).contains(d) <==> self.has_phrase(terms@, d) && exists|n: int|
                        0 <= n < m && list[n].doc == d,
                forall|a: int| 0 <= a < hits@.len() ==> exists|n: int|
                    0 <= n < m && list[n].doc == (#[trigger] hits@[a]).0,
                rising(hit_docs(hits@)),
                scored ==> forall|i: int|
                    0 <= i < hits@.len() ==> (#[trigger] hits@[i]).1 == self.phrase_score(
                        terms@,
                        hits@[i].0,
                        terms@.len(),
                    ),
            decreases first.len() - m,
        {
            let doc = first[m].doc;
            assert(list[m as int].doc == doc);
            let ghost before = hits@;
            let mut pushed = false;
            match self.phrase_places(terms, &slots, doc) {
                Some(places) => {
                    let score = if scored {
                        self.phrase_total(terms, &slots, &normalizers, doc, &places)
                    } else {
                        Scalar::zero()
                    };
                    proof {
                        assert forall|a: int| 0 <= a < before.len() implies hit_docs(before)[a].0
                            < doc.0 by {
                            let n = choose|n: int| 0 <= n < m && list[n].doc == before[a].0;
                            assert(list[n].doc.0 < list[m as int].doc.0);
                        }
                    }
                    hits.push((doc, score));
                    pushed = true;
                },
                None => {},
            }
            proof {
                assert forall|d: DocumentId|
                    hit_docs(hits@).contains(d) <==> self.has_phrase(terms@, d) && exists|n: int|
                        0 <= n < m + 1 && list[n].doc == d by {
                    if hit_docs(before).contains(d) {
                        let a = choose|a: int| 0 <= a < before.len() && hit_docs(before)[a] == d;
                        assert(hit_docs(hits@)[a] == d);
                    }
                    if hit_docs(hits@).contains(d) {
                        let a = choose|a: int| 0 <= a < hits@.len() && hit_docs(hits@)[a] == d;
                        if a < before.len() {
                            assert(hit_docs(before)[a] == d);
                        }
                    }
                    if pushed {
                        assert(hit_docs(hits@)[before.len() as int] == doc);
                    }
                }
                assert forall|a: int, b: int| 0 <= a < b < hits@.len() implies hit_docs(
                    hits@,
                )[a].0 < hit_docs(hits@)[b].0 by {
                    assert(hit_docs(hits@)[a] == hits@[a].0);
                    assert(hit_docs(hits@)[b] == hits@[b].0);
                    if b < before.len() {
                        assert(hit_docs(before)[a].0 < hit_docs(before)[b].0);
                    } else {
                        assert(hit_docs(before)[a] == before[a].0);
                        let n = choose|n: int| 0 <= n < m && list[n].doc == before[a].0;
                        assert(list[n].doc.0 < list[m as int].doc.0);
                    }
                }
                assert forall|a: int| 0 <= a < hits@.len() implies exists|n: int|
                    0 <= n < m + 1 && list[n].doc == (#[trigger] hits@[a]).0 by {
                    if a < before.len() {
                        let n = choose|n: int| 0 <= n < m && list[n].doc == before[a].0;
                        assert(list[n].doc == hits@[a].0);
                    } else {
                        assert(list[m as int].doc == hits@[a].0);
                    }
                }
            }
            m += 1;
        }
        proof {
            assert forall|d: DocumentId| self.has_phrase(terms@, d) implies exists|n: int|
                0 <= n < first.len() && list[n].doc == d by {
                let start = choose|start: int| 0 <= start && self.phrase_at(terms@, d, start);
                assert(self.positions(terms@[0], d).contains((start + 0) as usize));
                assert(lists_doc(list, d));
            }
        }
        hits
    }
}

/// The documents of a list of scored hits, one for one.
pub open spec fn hit_docs(hits: Seq<(DocumentId, Scalar)>) -> Seq<DocumentId> {
    Seq::new(hits.len(), |i: int| hits[i].0)
}

/// The sum over a prefix of a posting list is no more than that over the
/// whole list.
pub proof fn lemma_occurrences_rise(list: Seq<PostingView>, n: int)
    requires
        0 <= n <= list.len(),
    ensures
        occurrences(list.take(n)) <= occurrences(list),
    decreases list.len(),
{
    if n == list.len() {
        assert(list.take(n) =~= list);
    } else {
        assert(list.drop_last().take(n) =~= list.take(n));
        lemma_occurrences_rise(list.drop_last(), n);
    }
}

/// In a rising posting list a document has one posting at most.
pub proof fn lemma_posting_of(list: Seq<PostingView>, doc: DocumentId, m: int)
    requires
        ascending(list),
        0 <= m < list.len(),
        list[m].doc == doc,
    ensures
        lists_doc(list, doc),
        posting_of(list, doc) == list[m],
{
    let i = choose|i: int| 0 <= i < list.len() && list[i].doc == doc;
    if i < m {
        assert(list[i].doc.0 < list[m].doc.0);
    }
    if m < i {
        assert(list[m].doc.0 < list[i].doc.0);
    }
}

/// The place of the posting of `doc` in a rising posting list.
pub fn find_posting(list: &Vec<Posting>, doc: DocumentId) -> (r: Option<usize>)
    requires
        ascending(posting_views(list@)),
    ensures
        match r {
            Some(m) => m < list@.len() && list@[m as int].doc == doc,
            None => !lists_doc(posting_views(list@), doc),
        },
{
    let ghost views = posting_views(list@);
    let mut low: usize = 0;
    let mut high: usize = list.len();
    while low < high
        invariant
            views == posting_views(list@),
            ascending(views),
            low <= high <= list@.len(),
            forall|i: int| 0 <= i < low ==> views[i].doc.0 < doc.0,
            forall|i: int| high <= i < list@.len() ==> views[i].doc.0 > doc.0,
        decreases high - low,
    {
        let middle = low + (high - low) / 2;
        let found = list[middle].doc;
        assert(views[middle as int].doc == found);
        if found.0 == doc.0 {
            return Some(middle);
        } else if found.0 < doc.0 {
            assert forall|i: int| 0 <= i < middle + 1 implies views[i].doc.0 < doc.0 by {
                if i < middle {
                    assert(views[i].doc.0 < views[middle as int].doc.0);
                }
            }
            low = middle + 1;
        } else {
            assert forall|i: int| middle <= i < list@.len() implies views[i].doc.0 > doc.0 by {
                if middle < i {
                    assert(views[middle as int].doc.0 < views[i].doc.0);
                }
            }
            high = middle;
        }
    }
    proof {
        if lists_doc(views, doc) {
            let i = choose|i: int| 0 <= i < views.len() && views[i].doc == doc;
            assert(views[i].doc.0 == doc.0);
        }
    }
    None
}

/// The positions that follow one of `candidates` and are in `next`.
pub fn advance(candidates: &Vec<usize>, next: &PositionSet) -> (r: Vec<usize>)
    ensures
        forall|c: usize|
            r@.contains(c) <==> c >= 1 && candidates@.contains((c - 1) as usize) && next@.contains(
                c,
            ),
{
    let mut r: Vec<usize> = Vec::new();
    let mut i: usize = 0;
    while i < candidates.len()
        invariant
            i <= candidates.len(),
            forall|c: usize|
                r@.contains(c) <==> c >= 1 && candidates@.take(i as int).contains((c - 1) as usize)
                    && next@.contains(c),
        decreases candidates.len() - i,
    {
        let p = candidates[i];
        let ghost before = r@;
        let ghost seen = candidates@.take(i as int);
        let ghost more = candidates@.take(i + 1);
        proof {
            assert(more =~= seen.push(p));
        }
        let mut kept = false;
        if p < usize::MAX {
            if next.contains(p + 1) {
                r.push(p + 1);
                kept = true;
            }
        }
        proof {
            assert forall|c: usize|
                r@.contains(c) <==> c >= 1 && more.contains((c - 1) as usize) && next@.contains(
                    c,
                ) by {
                let q = (c - 1) as usize;
                if before.contains(c) {
                    let a = choose|a: int| 0 <= a < before.len() && before[a] == c;
                    assert(r@[a] == c);
                    let b = choose|b: int| 0 <= b < seen.len() && seen[b] == q;
                    assert(more[b] == q);
                }
                if r@.contains(c) && !before.contains(c) {
                    let a = choose|a: int| 0 <= a < r@.len() && r@[a] == c;
                    assert(a == before.len());
                    assert(more[i as int] == p);
                }
                if c >= 1 && more.contains(q) && next@.contains(c) {
                    let b = choose|b: int| 0 <= b < more.len() && more[b] == q;
                    if b < i {
                        assert(seen[b] == q);
                        assert(before.contains(c));
                        let a = choose|a: int| 0 <= a < before.len() && before[a] == c;
                        assert(r@[a] == c);
                    } else {
                        assert(q == p);
                        assert(kept);
                        assert(r@[r@.len() - 1] == c);
                    }
                }
            }
        }
        i += 1;
    }
    assert(candidates@.take(candidates.len() as int) =~= candidates@);
    r
}

} // verus!
