//! The executor: which documents a query matches, and with what score.

use vstd::prelude::*;
use crate::database::Database;
use crate::ids::{rising, DocumentId, FieldId, TermId};
use crate::index::{hit_docs, lemma_posting_of, lists_doc, posting_of};
use crate::lists::{
    accumulate, doc_set, lemma_contains_push, lemma_push_fresh,
    lemma_push_has, lemma_rising_distinct, lemma_take_has, lemma_take_next, select, select_hits,
    tallied, tally_after, Tally,
};
use crate::query::{lemma_view_and, lemma_view_or, views, Query, QueryView};
use crate::scalar::{bits_are_zero, is_zero_bits, Scalar};
use crate::table::{IdSet, IdTable};

verus! {

impl Database {
    /// Whether `doc` holds `term` in `field`.
    pub open spec fn holds_term(&self, field: FieldId, term: TermId, doc: DocumentId) -> bool {
        lists_doc(self.list(field, term), doc)
    }

    /// Whether `doc` holds the terms at consecutive positions in `field`.
    pub open spec fn holds_phrase(&self, field: FieldId, terms: Seq<TermId>, doc: DocumentId)
        -> bool {
        self.fields.map().contains_key(field.0) && self.fields.map()[field.0].has_phrase(terms, doc)
    }

    /// Whether the query matches the document. Only live documents match.
    pub open spec fn matches(&self, query: QueryView, doc: DocumentId) -> bool
        decreases query,
    {
        match query {
            QueryView::MatchAll => self.live(doc),
            QueryView::MatchNone => false,
            QueryView::Term(field, term) => self.live(doc) && self.holds_term(field, term, doc),
            QueryView::Phrase(field, terms) => self.live(doc) && self.holds_phrase(
                field,
                terms,
                doc,
            ),
            QueryView::Or(children) => exists|i: int|
                0 <= i < children.len() && self.matches(#[trigger] children[i], doc),
            QueryView::And(children) => children.len() > 0 && forall|i: int|
                0 <= i < children.len() ==> self.matches(#[trigger] children[i], doc),
            QueryView::Filter(query, filter) => self.matches(*query, doc) && self.matches(
                *filter,
                doc,
            ),
            QueryView::Exclude(query, filter) => self.matches(*query, doc) && !self.matches(
                *filter,
                doc,
            ),
            QueryView::Boost(query, _) => self.matches(*query, doc),
        }
    }

    /// Whether one of the first `n` children matches the document.
    pub open spec fn matches_any(&self, children: Seq<QueryView>, n: int, doc: DocumentId)
        -> bool {
        exists|i: int| 0 <= i < n && i < children.len() && self.matches(#[trigger] children[i], doc)
    }

    /// Whether each of the first `n` children matches the document.
    pub open spec fn matches_each(&self, children: Seq<QueryView>, n: int, doc: DocumentId)
        -> bool {
        forall|i: int| 0 <= i < n && i < children.len() ==> self.matches(#[trigger] children[i], doc)
    }

    /// A disjunction matches where a child does.
    pub proof fn lemma_matches_or(&self, children: Seq<QueryView>, doc: DocumentId)
        ensures
            self.matches(QueryView::Or(children), doc) <==> self.matches_any(
                children,
                children.len() as int,
                doc,
            ),
    {
        let whole = QueryView::Or(children);
        if self.matches_any(children, children.len() as int, doc) {
            let i = choose|i: int|
                0 <= i < children.len() && i < children.len() && self.matches(
                    #[trigger] children[i],
                    doc,
                );
            assert(0 <= i < children.len() && self.matches(children[i], doc));
            assert(whole->Or_0 == children);
            assert(self.matches(whole, doc));
        }
        if self.matches(whole, doc) {
            let i = choose|i: int|
                0 <= i < children.len() && self.matches(#[trigger] children[i], doc);
            assert(0 <= i < children.len() && i < children.len() && self.matches(children[i], doc));
            assert(self.matches_any(children, children.len() as int, doc));
        }
    }

    /// A conjunction matches where it has children and each of them does.
    pub proof fn lemma_matches_and(&self, children: Seq<QueryView>, doc: DocumentId)
        ensures
            self.matches(QueryView::And(children), doc) <==> children.len() > 0
                && self.matches_each(children, children.len() as int, doc),
    {
        if children.len() > 0 && self.matches_each(children, children.len() as int, doc) {
            assert forall|i: int| 0 <= i < children.len() implies self.matches(
                #[trigger] children[i],
                doc,
            ) by {}
        }
    }

    /// A term or phrase is held by inserted documents only.
    pub proof fn lemma_held_is_inserted(&self, field: FieldId, term: TermId, doc: DocumentId)
        requires
            self.wf(),
            self.holds_term(field, term, doc),
        ensures
            doc.0 < self.next_document_id,
    {
        let list = self.list(field, term);
        let i = choose|i: int| 0 <= i < list.len() && list[i].doc == doc;
        assert(self.fields.map().contains_key(field.0));
        let index = self.fields.map()[field.0];
        assert(index.list(TermId(term.0)) == list);
        assert(index.list(TermId(term.0))[i].doc.0 <= index.newest.unwrap().0);
    }

    /// The live documents among `docs`.
    fn live_among(&self, docs: &Vec<DocumentId>) -> (kept: Vec<DocumentId>)
        ensures
            forall|d: DocumentId|
                #![trigger kept@.contains(d)]
                kept@.contains(d) <==> docs@.contains(d) && !self.deleted_docs@.contains(d.0),
            docs@.no_duplicates() ==> kept@.no_duplicates(),
            rising(docs@) ==> rising(kept@),
    {
        select(docs, &self.deleted_docs, false)
    }

    /// Every live document, in the order of insertion.
    fn all_live(&self) -> (docs: Vec<DocumentId>)
        ensures
            forall|d: DocumentId|
                #![trigger docs@.contains(d)]
                docs@.contains(d) <==> self.live(d),
            docs@.no_duplicates(),
            rising(docs@),
    {
        let mut docs: Vec<DocumentId> = Vec::new();
        let mut next: u32 = 0;
        while next < self.next_document_id
            invariant
                next <= self.next_document_id,
                rising(docs@),
                forall|a: int| 0 <= a < docs@.len() ==> (#[trigger] docs@[a]).0 < next,
                forall|d: DocumentId|
                    #![trigger docs@.contains(d)]
                    docs@.contains(d) <==> self.live(d) && d.0 < next,
                docs@.no_duplicates(),
            decreases self.next_document_id - next,
        {
            let doc = DocumentId(next);
            let ghost before = docs@;
            proof {
                assert(before.contains(doc) <==> self.live(doc) && doc.0 < next);
                lemma_push_fresh(before, doc);
            }
            if !self.deleted_docs.contains(next) {
                docs.push(doc);
            }
            proof {
                assert forall|d: DocumentId| docs@.contains(d) <==> self.live(d) && d.0 < next
                    + 1 by {
                    assert(before.contains(d) <==> self.live(d) && d.0 < next);
                    assert(d == doc <==> d.0 == next);
                    lemma_push_has(before, doc, d);
                }
            }
            next = next + 1;
        }
        docs
    }

    /// The documents that the query matches, each once.
    ///
    /// A term or a phrase gives its documents in the order of insertion, and
    /// so does `MatchAll`. Of the order of the others nothing is promised.
    pub fn simple_match(&self, query: &Query) -> (docs: Vec<DocumentId>)
        requires
            self.wf(),
        ensures
            forall|d: DocumentId|
                #![trigger docs@.contains(d)]
                docs@.contains(d) <==> self.matches(query@, d),
            docs@.no_duplicates(),
            query@ is MatchAll || query@ is Term || query@ is Phrase ==> rising(docs@),
        decreases query,
    {
        match query {
            Query::MatchAll => self.all_live(),
            Query::MatchNone => Vec::new(),
            Query::Term(field, term) => {
                match self.fields.find(field.0) {
                    Some(slot) => {
                        let index = self.fields.value(slot);
                        let found = index.docs_with_term(*term);
                        let kept = self.live_among(&found);
                        proof {
                            let list = self.list(*field, *term);
                            assert(list == index.list(*term));
                            assert forall|d: DocumentId| found@.contains(d) <==> lists_doc(
                                list,
                                d,
                            ) by {
                                if found@.contains(d) {
                                    let i = choose|i: int| 0 <= i < found@.len() && found@[i] == d;
                                    assert(list[i].doc == d);
                                }
                                if lists_doc(list, d) {
                                    let i = choose|i: int| 0 <= i < list.len() && list[i].doc == d;
                                    assert(found@[i] == d);
                                }
                            }
                            assert forall|a: int, b: int|
                                0 <= a < b < found@.len() implies found@[a].0 < found@[b].0 by {
                                assert(list[a].doc.0 < list[b].doc.0);
                            }
                            lemma_rising_distinct(found@);
                            assert forall|d: DocumentId| kept@.contains(d) <==> self.matches(
                                query@,
                                d,
                            ) by {
                                if lists_doc(list, d) {
                                    self.lemma_held_is_inserted(*field, *term, d);
                                }
                            }
                        }
                        kept
                    },
                    None => Vec::new(),
                }
            },
            Query::Phrase(field, terms) => {
                match self.fields.find(field.0) {
                    Some(slot) => {
                        let index = self.fields.value(slot);
                        let found = index.docs_with_phrase(terms);
                        let kept = self.live_among(&found);
                        proof {
                            lemma_rising_distinct(found@);
                            assert forall|d: DocumentId| kept@.contains(d) <==> self.matches(
                                query@,
                                d,
                            ) by {
                                if index.has_phrase(terms@, d) {
                                    self.lemma_phrase_is_inserted(*field, terms@, d);
                                }
                            }
                        }
                        kept
                    },
                    None => Vec::new(),
                }
            },
            Query::Or(children) => {
                proof {
                    lemma_view_or(*children);
                }
                let ghost cs = views(children@);
                let mut acc: Vec<DocumentId> = Vec::new();
                let mut seen = IdSet::new();
                let mut k: usize = 0;
                while k < children.len()
                    invariant
                        self.wf(),
                        k <= children.len(),
                        cs == views(children@),
                        forall|d: DocumentId|
                            #![trigger acc@.contains(d)]
                            acc@.contains(d) <==> self.matches_any(cs, k as int, d),
                        forall|d: DocumentId| #![trigger acc@.contains(d)] seen@.contains(d.0) <==> acc@.contains(d),
                        acc@.no_duplicates(),
                        forall|i: int|
                            0 <= i < children.len() ==> decreases_to!(query => children[i]),
                    decreases children.len() - k,
                {
                    let found = self.simple_match(&children[k]);
                    let ghost start = acc@;
                    let mut j: usize = 0;
                    while j < found.len()
                        invariant
                            j <= found.len(),
                            forall|d: DocumentId|
                                #![trigger acc@.contains(d)]
                                acc@.contains(d) <==> start.contains(d) || found@.take(
                                    j as int,
                                ).contains(d),
                            forall|d: DocumentId| #![trigger acc@.contains(d)] seen@.contains(d.0) <==> acc@.contains(d),
                            acc@.no_duplicates(),
                        decreases found.len() - j,
                    {
                        let doc = found[j];
                        let ghost before = acc@;
                        let ghost marks = seen@;
                        proof {
                            lemma_take_next(found@, j as int);
                            lemma_contains_push(before, doc);
                            assert(marks.contains(doc.0) <==> before.contains(doc));
                        }
                        if !seen.contains(doc.0) {
                            proof {
                                lemma_push_fresh(before, doc);
                            }
                            seen.insert(doc.0);
                            acc.push(doc);
                        }
                        proof {
                            assert forall|d: DocumentId|
                                #![trigger acc@.contains(d)]
                                acc@.contains(d) <==> start.contains(d) || found@.take(
                                    j + 1,
                                ).contains(d) by {
                                assert(before.contains(d) <==> start.contains(d) || found@.take(
                                    j as int,
                                ).contains(d));
                                lemma_push_has(before, doc, d);
                                lemma_take_has(found@, j as int, d);
                            }
                            assert forall|d: DocumentId|
                                #![trigger acc@.contains(d)]
                                seen@.contains(d.0) <==> acc@.contains(d) by {
                                assert(marks.contains(d.0) <==> before.contains(d));
                                assert(d == doc <==> d.0 == doc.0);
                                lemma_push_has(before, doc, d);
                            }
                        }
                        j += 1;
                    }
                    proof {
                        assert(found@.take(found.len() as int) =~= found@);
                        assert(cs[k as int] == children@[k as int]@);
                        assert forall|d: DocumentId| acc@.contains(d) <==> self.matches_any(
                            cs,
                            k + 1,
                            d,
                        ) by {
                            assert(start.contains(d) <==> self.matches_any(cs, k as int, d));
                            assert(found@.contains(d) <==> self.matches(cs[k as int], d));
                            if self.matches_any(cs, k + 1, d) {
                                let i = choose|i: int|
                                    0 <= i < k + 1 && i < cs.len() && self.matches(
                                        #[trigger] cs[i],
                                        d,
                                    );
                                if i < k {
                                    assert(self.matches_any(cs, k as int, d));
                                }
                            }
                            if self.matches_any(cs, k as int, d) {
                                let i = choose|i: int|
                                    0 <= i < k && i < cs.len() && self.matches(#[trigger] cs[i], d);
                                assert(self.matches_any(cs, k + 1, d));
                            }
                        }
                    }
                    k += 1;
                }
                proof {
                    assert(query@ == QueryView::Or(cs));
                    assert forall|d: DocumentId|
                        #![trigger acc@.contains(d)]
                        acc@.contains(d) <==> self.matches(query@, d) by {
                        assert(acc@.contains(d) <==> self.matches_any(cs, cs.len() as int, d));
                        self.lemma_matches_or(cs, d);
                    }
                }
                acc
            },
            Query::And(children) => {
                proof {
                    lemma_view_and(*children);
                }
                let ghost cs = views(children@);
                if children.len() == 0 {
                    assert(query@ == QueryView::And(cs));
                    return Vec::new();
                }
                let mut acc = self.simple_match(&children[0]);
                assert(cs[0] == children@[0]@);
                let mut k: usize = 1;
                while k < children.len()
                    invariant
                        self.wf(),
                        1 <= k <= children.len(),
                        cs == views(children@),
                        forall|d: DocumentId|
                            #![trigger acc@.contains(d)]
                            acc@.contains(d) <==> self.matches_each(cs, k as int, d),
                        acc@.no_duplicates(),
                        forall|i: int|
                            0 <= i < children.len() ==> decreases_to!(query => children[i]),
                    decreases children.len() - k,
                {
                    let found = self.simple_match(&children[k]);
                    let set = doc_set(&found);
                    let ghost before = acc@;
                    acc = select(&acc, &set, true);
                    proof {
                        assert(cs[k as int] == children@[k as int]@);
                        assert forall|d: DocumentId| acc@.contains(d) <==> self.matches_each(
                            cs,
                            k + 1,
                            d,
                        ) by {
                            assert(before.contains(d) <==> self.matches_each(cs, k as int, d));
                            assert(found@.contains(d) <==> self.matches(cs[k as int], d));
                            if self.matches_each(cs, k + 1, d) {
                                assert(self.matches(cs[k as int], d));
                                assert(self.matches_each(cs, k as int, d));
                            }
                            if self.matches_each(cs, k as int, d) && self.matches(
                                cs[k as int],
                                d,
                            ) {
                                assert forall|i: int| 0 <= i < k + 1 && i < cs.len() implies self.matches(
                                #[trigger] cs[i], d) by {}
                            }
                        }
                    }
                    k += 1;
                }
                proof {
                    assert(query@ == QueryView::And(cs));
                    assert forall|d: DocumentId|
                        #![trigger acc@.contains(d)]
                        acc@.contains(d) <==> self.matches(query@, d) by {
                        assert(acc@.contains(d) <==> self.matches_each(cs, cs.len() as int, d));
                        self.lemma_matches_and(cs, d);
                    }
                }
                acc
            },
            Query::Filter(inner, filter) => {
                let found = self.simple_match(inner);
                let set = doc_set(&self.simple_match(filter));
                select(&found, &set, true)
            },
            Query::Exclude(inner, filter) => {
                let found = self.simple_match(inner);
                let set = doc_set(&self.simple_match(filter));
                select(&found, &set, false)
            },
            Query::Boost(inner, _) => self.simple_match(inner),
        }
    }

    /// A phrase is held by inserted documents only.
    pub proof fn lemma_phrase_is_inserted(
        &self,
        field: FieldId,
        terms: Seq<TermId>,
        doc: DocumentId,
    )
        requires
            self.wf(),
            self.holds_phrase(field, terms, doc),
        ensures
            doc.0 < self.next_document_id,
    {
        let index = self.fields.map()[field.0];
        let start = choose|start: int| 0 <= start && index.phrase_at(terms, doc, start);
        assert(index.positions(terms[0], doc).contains((start + 0) as usize));
        assert(lists_doc(index.list(terms[0]), doc));
        assert(self.list(field, terms[0]) == index.list(terms[0]));
        self.lemma_held_is_inserted(field, terms[0], doc);
    }

    /// The score that the query gives a document that it matches.
    ///
    /// `MatchAll` scores zero. A term scores its posting's weight times the
    /// term's scaling factor, a phrase the sum of that over its terms. A
    /// disjunction or conjunction adds to zero, in the order of the children,
    /// the score of each child that matches. A filter or an exclusion leaves
    /// the score of its first query as it is. A boost multiplies by its
    /// factor, and gives zero where the factor is zero.
    pub open spec fn score(&self, query: QueryView, doc: DocumentId) -> Scalar
        decreases query, 0nat,
    {
        match query {
            QueryView::MatchAll => Scalar::zero_spec(),
            QueryView::MatchNone => Scalar::zero_spec(),
            QueryView::Term(field, term) => Scalar::mul_spec(
                posting_of(self.list(field, term), doc).weight,
                self.fields.map()[field.0].normalizer(term),
            ),
            QueryView::Phrase(field, terms) => self.fields.map()[field.0].phrase_score(
                terms,
                doc,
                terms.len(),
            ),
            QueryView::Or(children) => self.sum_scores(children, children.len(), doc),
            QueryView::And(children) => self.sum_scores(children, children.len(), doc),
            QueryView::Filter(query, _) => self.score(*query, doc),
            QueryView::Exclude(query, _) => self.score(*query, doc),
            QueryView::Boost(query, factor) => if bits_are_zero(factor) {
                Scalar::zero_spec()
            } else {
                Scalar::mul_spec(self.score(*query, doc), Scalar::Bits(factor))
            },
        }
    }

    /// Zero, plus the score of each of the first `n` children that matches
    /// the document, in their order.
    pub open spec fn sum_scores(&self, children: Seq<QueryView>, n: nat, doc: DocumentId)
        -> Scalar
        decreases children, n,
    {
        if n == 0 || n > children.len() {
            Scalar::zero_spec()
        } else {
            let rest = self.sum_scores(children, (n - 1) as nat, doc);
            if self.matches(children[n - 1], doc) {
                Scalar::add_spec(rest, self.score(children[n - 1], doc))
            } else {
                rest
            }
        }
    }

    /// The number of the first `n` children that match the document.
    pub open spec fn match_count(&self, children: Seq<QueryView>, n: nat, doc: DocumentId) -> nat
        decreases n,
    {
        if n == 0 || n > children.len() {
            0
        } else {
            self.match_count(children, (n - 1) as nat, doc) + if self.matches(
                children[n - 1],
                doc,
            ) {
                1nat
            } else {
                0nat
            }
        }
    }

    /// What the tallies hold after the first `n` children: a tally for each
    /// document that one of them matches, with the sum of the scores and the
    /// number of children that matched.
    pub open spec fn tallies_at(
        &self,
        tallies: Map<u32, Tally>,
        children: Seq<QueryView>,
        n: nat,
    ) -> bool {
        forall|d: DocumentId|
            #![trigger tallies.contains_key(d.0)]
            #![trigger tallies[d.0]]
            {
                &&& tallies.contains_key(d.0) <==> self.matches_any(children, n as int, d)
                &&& tallies.contains_key(d.0) ==> tallies[d.0].score == self.sum_scores(
                    children,
                    n,
                    d,
                ) && tallies[d.0].count == self.match_count(children, n, d)
            }
    }

    /// Where none of the first `n` children matches, the sum is zero and so
    /// is the count; the count is never more than `n`, and is `n` just where
    /// each child matches.
    pub proof fn lemma_counts(&self, children: Seq<QueryView>, n: nat, doc: DocumentId)
        requires
            n <= children.len(),
        ensures
            self.match_count(children, n, doc) <= n,
            !self.matches_any(children, n as int, doc) ==> self.sum_scores(children, n, doc)
                == Scalar::zero_spec() && self.match_count(children, n, doc) == 0,
            self.match_count(children, n, doc) == n <==> self.matches_each(
                children,
                n as int,
                doc,
            ),
        decreases n,
    {
        if n > 0 {
            let m = (n - 1) as nat;
            self.lemma_counts(children, m, doc);
            if self.matches_any(children, m as int, doc) {
                let i = choose|i: int|
                    0 <= i < m && i < children.len() && self.matches(#[trigger] children[i], doc);
                assert(0 <= i < n && self.matches(children[i], doc));
            }
            if self.matches(children[n - 1], doc) {
                assert(self.matches_any(children, n as int, doc));
            }
            if self.matches_each(children, n as int, doc) {
                assert(self.matches(children[n - 1], doc));
                assert forall|i: int| 0 <= i < m && i < children.len() implies self.matches(
                    #[trigger] children[i],
                    doc,
                ) by {}
            }
            if self.matches_each(children, m as int, doc) && self.matches(children[n - 1], doc) {
                assert forall|i: int| 0 <= i < n && i < children.len() implies self.matches(
                    #[trigger] children[i],
                    doc,
                ) by {}
            }
        }
    }

    /// The tallies of the children of a disjunction or conjunction.
    fn tally_children(&self, children: &Vec<Query>, Ghost(parent): Ghost<Query>) -> (table:
        IdTable<Tally>)
        requires
            self.wf(),
            forall|i: int| 0 <= i < children.len() ==> decreases_to!(parent => children[i]),
        ensures
            table.wf(),
            self.tallies_at(table.map(), views(children@), children@.len()),
        decreases parent, 0nat,
    {
        let ghost cs = views(children@);
        let mut table: IdTable<Tally> = IdTable::new();
        let mut k: usize = 0;
        while k < children.len()
            invariant
                self.wf(),
                k <= children.len(),
                cs == views(children@),
                table.wf(),
                self.tallies_at(table.map(), cs, k as nat),
                forall|i: int| 0 <= i < children.len() ==> decreases_to!(parent => children[i]),
            decreases children.len() - k,
        {
            let hits = self.query(&children[k]);
            let ghost before = table.map();
            let ghost child = cs[k as int];
            proof {
                assert(child == children@[k as int]@);
                assert forall|key: u32| #[trigger] before.contains_key(key) implies before[key].count
                    < usize::MAX by {
                    let d = DocumentId(key);
                    assert(before.contains_key(d.0));
                    self.lemma_counts(cs, k as nat, d);
                }
            }
            accumulate(&mut table, hits);
            proof {
                let now = table.map();
                assert forall|d: DocumentId|
                    #![trigger now.contains_key(d.0)]
                    #![trigger now[d.0]]
                    (now.contains_key(d.0) <==> self.matches_any(cs, k + 1, d)) && (
                    now.contains_key(d.0) ==> now[d.0].score == self.sum_scores(
                        cs,
                        (k + 1) as nat,
                        d,
                    ) && now[d.0].count == self.match_count(cs, (k + 1) as nat, d)) by {
                    self.lemma_counts(cs, k as nat, d);
                    assert(before.contains_key(d.0) <==> self.matches_any(cs, k as int, d));
                    assert(hit_docs(hits@).contains(d) <==> self.matches(child, d));
                    if self.matches_any(cs, k + 1, d) {
                        let i = choose|i: int|
                            0 <= i < k + 1 && i < cs.len() && self.matches(#[trigger] cs[i], d);
                        if i < k {
                            assert(self.matches_any(cs, k as int, d));
                        }
                    }
                    if self.matches_any(cs, k as int, d) {
                        let i = choose|i: int|
                            0 <= i < k && i < cs.len() && self.matches(#[trigger] cs[i], d);
                        assert(self.matches_any(cs, k + 1, d));
                    }
                    if self.matches(child, d) {
                        assert(self.matches_any(cs, k + 1, d));
                        let i = choose|i: int|
                            0 <= i < hits@.len() && hit_docs(hits@)[i] == d;
                        assert(now[hit_docs(hits@)[i].0] == tally_after(before, hits@[i]));
                        assert(hits@[i].1 == self.score(child, d));
                    } else {
                        assert(now.contains_key(d.0) ==> now[d.0] == before[d.0]);
                    }
                }
            }
            k += 1;
        }
        table
    }

    /// The documents that the query matches, each once and with its score.
    ///
    /// A term or a phrase gives its documents in the order of insertion, and
    /// so does `MatchAll`. Of the order of the others nothing is promised.
    pub fn query(&self, query: &Query) -> (hits: Vec<(DocumentId, Scalar)>)
        requires
            self.wf(),
        ensures
            forall|d: DocumentId|
                #![trigger hit_docs(hits@).contains(d)]
                hit_docs(hits@).contains(d) <==> self.matches(query@, d),
            hit_docs(hits@).no_duplicates(),
            query@ is MatchAll || query@ is Term || query@ is Phrase ==> rising(hit_docs(hits@)),
            forall|i: int|
                #![trigger hits@[i]]
                0 <= i < hits@.len() ==> hits@[i].1 == self.score(query@, hit_docs(hits@)[i]),
        decreases query, 1nat,
    {
        match query {
            Query::MatchAll => {
                let docs = self.all_live();
                with_zero(docs)
            },
            Query::MatchNone => {
                let hits: Vec<(DocumentId, Scalar)> = Vec::new();
                assert(hit_docs(hits@) =~= Seq::<DocumentId>::empty());
                hits
            },
            Query::Term(field, term) => {
                match self.fields.find(field.0) {
                    Some(slot) => {
                        let index = self.fields.value(slot);
                        let found = index.search(*term);
                        let ghost all = found@;
                        let kept = select_hits(found, &self.deleted_docs, false);
                        proof {
                            let list = self.list(*field, *term);
                            assert(list == index.list(*term));
                            assert forall|d: DocumentId| hit_docs(all).contains(d) <==> lists_doc(
                                list,
                                d,
                            ) by {
                                if hit_docs(all).contains(d) {
                                    let i = choose|i: int|
                                        0 <= i < all.len() && hit_docs(all)[i] == d;
                                    assert(list[i].doc == d);
                                }
                                if lists_doc(list, d) {
                                    let i = choose|i: int| 0 <= i < list.len() && list[i].doc == d;
                                    assert(hit_docs(all)[i] == d);
                                }
                            }
                            assert forall|a: int, b: int|
                                0 <= a < b < all.len() implies hit_docs(all)[a].0 < hit_docs(
                                all,
                            )[b].0 by {
                                assert(list[a].doc.0 < list[b].doc.0);
                            }
                            lemma_rising_distinct(hit_docs(all));
                            assert forall|d: DocumentId|
                                #![trigger hit_docs(kept@).contains(d)]
                                hit_docs(kept@).contains(d) <==> self.matches(query@, d) by {
                                if lists_doc(list, d) {
                                    self.lemma_held_is_inserted(*field, *term, d);
                                }
                            }
                            assert forall|i: int|
                                #![trigger kept@[i]]
                                0 <= i < kept@.len() implies kept@[i].1 == self.score(
                                query@,
                                hit_docs(kept@)[i],
                            ) by {
                                assert(all.contains(kept@[i]));
                                let j = choose|j: int| 0 <= j < all.len() && all[j] == kept@[i];
                                lemma_posting_of(list, list[j].doc, j);
                            }
                        }
                        kept
                    },
                    None => {
                        let hits: Vec<(DocumentId, Scalar)> = Vec::new();
                        assert(hit_docs(hits@) =~= Seq::<DocumentId>::empty());
                        hits
                    },
                }
            },
            Query::Phrase(field, terms) => {
                match self.fields.find(field.0) {
                    Some(slot) => {
                        let index = self.fields.value(slot);
                        let found = index.phrase_search(terms);
                        let ghost all = found@;
                        let kept = select_hits(found, &self.deleted_docs, false);
                        proof {
                            lemma_rising_distinct(hit_docs(all));
                            assert forall|d: DocumentId|
                                #![trigger hit_docs(kept@).contains(d)]
                                hit_docs(kept@).contains(d) <==> self.matches(query@, d) by {
                                assert(hit_docs(all).contains(d) <==> index.has_phrase(terms@, d));
                                if index.has_phrase(terms@, d) {
                                    self.lemma_phrase_is_inserted(*field, terms@, d);
                                }
                            }
                            assert forall|i: int|
                                #![trigger kept@[i]]
                                0 <= i < kept@.len() implies kept@[i].1 == self.score(
                                query@,
                                hit_docs(kept@)[i],
                            ) by {
                                assert(all.contains(kept@[i]));
                                let j = choose|j: int| 0 <= j < all.len() && all[j] == kept@[i];
                                assert(hit_docs(all)[j] == all[j].0);
                            }
                        }
                        kept
                    },
                    None => {
                        let hits: Vec<(DocumentId, Scalar)> = Vec::new();
                        assert(hit_docs(hits@) =~= Seq::<DocumentId>::empty());
                        hits
                    },
                }
            },
            Query::Or(children) => {
                proof {
                    lemma_view_or(*children);
                }
                let ghost cs = views(children@);
                let table = self.tally_children(children, Ghost(*query));
                let ghost map = table.map();
                let hits = tallied(table, None);
                proof {
                    assert(query@ == QueryView::Or(cs));
                    assert forall|d: DocumentId|
                        #![trigger hit_docs(hits@).contains(d)]
                        hit_docs(hits@).contains(d) <==> self.matches(query@, d) by {
                        assert(map.contains_key(d.0) <==> self.matches_any(cs, cs.len() as int, d));
                        self.lemma_matches_or(cs, d);
                    }
                    assert forall|i: int|
                        #![trigger hits@[i]]
                        0 <= i < hits@.len() implies hits@[i].1 == self.score(
                        query@,
                        hit_docs(hits@)[i],
                    ) by {
                        let d = hit_docs(hits@)[i];
                        assert(hit_docs(hits@).contains(d));
                        assert(map.contains_key(d.0));
                        assert(map[d.0].score == self.sum_scores(cs, cs.len(), d));
                    }
                }
                hits
            },
            Query::And(children) => {
                proof {
                    lemma_view_and(*children);
                }
                let ghost cs = views(children@);
                let table = self.tally_children(children, Ghost(*query));
                let ghost map = table.map();
                let hits = tallied(table, Some(children.len()));
                proof {
                    assert(query@ == QueryView::And(cs));
                    assert forall|d: DocumentId|
                        #![trigger hit_docs(hits@).contains(d)]
                        hit_docs(hits@).contains(d) <==> self.matches(query@, d) by {
                        assert(map.contains_key(d.0) <==> self.matches_any(cs, cs.len() as int, d));
                        self.lemma_counts(cs, cs.len(), d);
                        self.lemma_matches_and(cs, d);
                        if map.contains_key(d.0) {
                            assert(map[d.0].count == self.match_count(cs, cs.len(), d));
                        }
                        if cs.len() > 0 && self.matches_each(cs, cs.len() as int, d) {
                            assert(self.matches(cs[0], d));
                            assert(self.matches_any(cs, cs.len() as int, d));
                        }
                        if self.matches_any(cs, cs.len() as int, d) {
                            assert(cs.len() > 0);
                        }
                    }
                    assert forall|i: int|
                        #![trigger hits@[i]]
                        0 <= i < hits@.len() implies hits@[i].1 == self.score(
                        query@,
                        hit_docs(hits@)[i],
                    ) by {
                        let d = hit_docs(hits@)[i];
                        assert(hit_docs(hits@).contains(d));
                        assert(map.contains_key(d.0));
                        assert(map[d.0].score == self.sum_scores(cs, cs.len(), d));
                    }
                }
                hits
            },
            Query::Filter(inner, filter) => {
                let found = self.query(inner);
                let ghost all = found@;
                let set = doc_set(&self.simple_match(filter));
                let kept = select_hits(found, &set, true);
                proof {
                    assert forall|i: int|
                        #![trigger kept@[i]]
                        0 <= i < kept@.len() implies kept@[i].1 == self.score(
                        query@,
                        hit_docs(kept@)[i],
                    ) by {
                        assert(all.contains(kept@[i]));
                        let j = choose|j: int| 0 <= j < all.len() && all[j] == kept@[i];
                        assert(hit_docs(all)[j] == all[j].0);
                    }
                }
                kept
            },
            Query::Exclude(inner, filter) => {
                let found = self.query(inner);
                let ghost all = found@;
                let set = doc_set(&self.simple_match(filter));
                let kept = select_hits(found, &set, false);
                proof {
                    assert forall|i: int|
                        #![trigger kept@[i]]
                        0 <= i < kept@.len() implies kept@[i].1 == self.score(
                        query@,
                        hit_docs(kept@)[i],
                    ) by {
                        assert(all.contains(kept@[i]));
                        let j = choose|j: int| 0 <= j < all.len() && all[j] == kept@[i];
                        assert(hit_docs(all)[j] == all[j].0);
                    }
                }
                kept
            },
            Query::Boost(inner, factor) => {
                if is_zero_bits(*factor) {
                    let docs = self.simple_match(inner);
                    with_zero(docs)
                } else {
                    let found = self.query(inner);
                    scaled(found, *factor)
                }
            },
        }
    }
}

/// The documents, each with the score zero.
pub fn with_zero(docs: Vec<DocumentId>) -> (hits: Vec<(DocumentId, Scalar)>)
    ensures
        hit_docs(hits@) == docs@,
        forall|i: int| #![trigger hits@[i]] 0 <= i < hits@.len() ==> hits@[i].1 == Scalar::zero_spec(),
{
    let mut hits: Vec<(DocumentId, Scalar)> = Vec::new();
    let mut i: usize = 0;
    while i < docs.len()
        invariant
            i <= docs.len(),
            hits@.len() == i,
            forall|k: int| #![trigger hits@[k]] 0 <= k < i ==> hits@[k].0 == docs@[k] && hits@[k].1 == Scalar::zero_spec(),
        decreases docs.len() - i,
    {
        hits.push((docs[i], Scalar::zero()));
        i += 1;
    }
    assert(hit_docs(hits@) =~= docs@);
    hits
}

/// The hits, each score multiplied by the single-precision value whose bit
/// pattern is `factor`.
pub fn scaled(hits: Vec<(DocumentId, Scalar)>, factor: u32) -> (r: Vec<(DocumentId, Scalar)>)
    ensures
        hit_docs(r@) == hit_docs(hits@),
        forall|i: int|
            #![trigger r@[i]]
            0 <= i < r@.len() ==> r@[i].1 == Scalar::mul_spec(hits@[i].1, Scalar::Bits(factor)),
{
    let mut r: Vec<(DocumentId, Scalar)> = Vec::new();
    let ghost all = hits@;
    for hit in it: hits
        invariant
            it.seq() == all,
            r@.len() == it.index(),
            forall|k: int|
                #![trigger r@[k]]
                0 <= k < r@.len() ==> r@[k].0 == all[k].0 && r@[k].1 == Scalar::mul_spec(
                    all[k].1,
                    Scalar::Bits(factor),
                ),
    {
        r.push((hit.0, Scalar::product(hit.1, Scalar::Bits(factor))));
    }
    assert(hit_docs(r@) =~= hit_docs(all));
    r
}

} // verus!
