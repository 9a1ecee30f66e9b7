//! Lists of documents and of scored hits without repetition, and the set
//! operations on them.

use vstd::prelude::*;
use crate::ids::{rising, DocumentId};
use crate::index::hit_docs;
use crate::scalar::Scalar;
use crate::table::{IdSet, IdTable};

verus! {

/// What a sequence contains after a push.
pub proof fn lemma_contains_push<T>(s: Seq<T>, x: T)
    ensures
        forall|y: T| s.push(x).contains(y) <==> s.contains(y) || y == x,
{
    assert forall|y: T| s.push(x).contains(y) <==> s.contains(y) || y == x by {
        if s.contains(y) {
            let i = choose|i: int| 0 <= i < s.len() && s[i] == y;
            assert(s.push(x)[i] == y);
        }
        if s.push(x).contains(y) && y != x {
            let i = choose|i: int| 0 <= i < s.push(x).len() && s.push(x)[i] == y;
            assert(s[i] == y);
        }
        assert(s.push(x)[s.len() as int] == x);
    }
}

/// Whether a sequence contains `y` after a push.
pub proof fn lemma_push_has<T>(s: Seq<T>, x: T, y: T)
    ensures
        s.push(x).contains(y) <==> s.contains(y) || y == x,
{
    lemma_contains_push(s, x);
}

/// Whether a prefix one longer contains `y`.
pub proof fn lemma_take_has<T>(s: Seq<T>, i: int, y: T)
    requires
        0 <= i < s.len(),
    ensures
        s.take(i + 1).contains(y) <==> s.take(i).contains(y) || y == s[i],
{
    lemma_take_next(s, i);
}

/// A prefix one longer is the prefix with the next item pushed.
pub proof fn lemma_take_next<T>(s: Seq<T>, i: int)
    requires
        0 <= i < s.len(),
    ensures
        s.take(i + 1) == s.take(i).push(s[i]),
        forall|y: T| s.take(i + 1).contains(y) <==> s.take(i).contains(y) || y == s[i],
{
    assert(s.take(i + 1) =~= s.take(i).push(s[i]));
    lemma_contains_push(s.take(i), s[i]);
}

/// Pushing an item that is not there keeps a sequence free of repetition.
pub proof fn lemma_push_fresh<T>(s: Seq<T>, x: T)
    requires
        s.no_duplicates(),
        !s.contains(x),
    ensures
        s.push(x).no_duplicates(),
{
    assert forall|i: int, j: int|
        0 <= i < s.push(x).len() && 0 <= j < s.push(x).len() && i != j implies s.push(x)[i]
        != s.push(x)[j] by {
        if i < s.len() && j < s.len() {
            assert(s[i] != s[j]);
        } else if i < s.len() {
            assert(s.contains(s[i]));
        } else {
            assert(s.contains(s[j]));
        }
    }
}

/// Documents in rising order do not repeat.
pub proof fn lemma_rising_distinct(docs: Seq<DocumentId>)
    requires
        rising(docs),
    ensures
        docs.no_duplicates(),
{
    assert forall|i: int, j: int| 0 <= i < docs.len() && 0 <= j < docs.len() && i != j implies docs[i]
        != docs[j] by {
        if i < j {
            assert(docs[i].0 < docs[j].0);
        } else {
            assert(docs[j].0 < docs[i].0);
        }
    }
}

/// The documents of a list of hits after a push.
pub proof fn lemma_hit_docs_push(hits: Seq<(DocumentId, Scalar)>, hit: (DocumentId, Scalar))
    ensures
        hit_docs(hits.push(hit)) == hit_docs(hits).push(hit.0),
{
    assert(hit_docs(hits.push(hit)) =~= hit_docs(hits).push(hit.0));
}

/// The set of the identifiers of `docs`.
pub fn doc_set(docs: &Vec<DocumentId>) -> (set: IdSet)
    ensures
        forall|d: DocumentId|
            #![trigger docs@.contains(d)]
            #![trigger set@.contains(d.0)]
            set@.contains(d.0) <==> docs@.contains(d),
{
    let mut set = IdSet::new();
    let mut i: usize = 0;
    while i < docs.len()
        invariant
            i <= docs.len(),
            forall|d: DocumentId| set@.contains(d.0) <==> docs@.take(i as int).contains(d),
        decreases docs.len() - i,
    {
        let ghost before = set@;
        set.insert(docs[i].0);
        proof {
            lemma_take_next(docs@, i as int);
            assert forall|d: DocumentId| set@.contains(d.0) <==> docs@.take(i + 1).contains(d) by {
                assert(before.contains(d.0) <==> docs@.take(i as int).contains(d));
                assert(d == docs@[i as int] <==> d.0 == docs@[i as int].0);
            }
        }
        i += 1;
    }
    assert(docs@.take(docs.len() as int) =~= docs@);
    set
}

/// The documents of `docs` that are in `set`, or those that are not.
/// Documents in rising order stay so.
pub fn select(docs: &Vec<DocumentId>, set: &IdSet, members: bool) -> (kept: Vec<DocumentId>)
    ensures
        forall|d: DocumentId|
            #![trigger kept@.contains(d)]
            #![trigger docs@.contains(d)]
            kept@.contains(d) <==> docs@.contains(d) && set@.contains(d.0) == members,
        docs@.no_duplicates() ==> kept@.no_duplicates(),
        rising(docs@) ==> rising(kept@),
{
    let mut kept: Vec<DocumentId> = Vec::new();
    let mut i: usize = 0;
    while i < docs.len()
        invariant
            i <= docs.len(),
            rising(docs@) ==> rising(kept@) && forall|a: int, k: int|
                0 <= a < kept@.len() && i <= k < docs@.len() ==> (#[trigger] kept@[a]).0 < (
                #[trigger] docs@[k]).0,
            forall|d: DocumentId|
                kept@.contains(d) <==> docs@.take(i as int).contains(d) && set@.contains(d.0)
                    == members,
            docs@.no_duplicates() ==> kept@.no_duplicates(),
        decreases docs.len() - i,
    {
        let doc = docs[i];
        proof {
            lemma_take_next(docs@, i as int);
            lemma_contains_push(kept@, doc);
            if docs@.no_duplicates() {
                if docs@.take(i as int).contains(doc) {
                    let k = choose|k: int| 0 <= k < i && docs@.take(i as int)[k] == doc;
                    assert(docs@[k] == docs@[i as int]);
                }
                lemma_push_fresh(kept@, doc);
            }
        }
        let ghost before = kept@;
        if set.contains(doc.0) == members {
            kept.push(doc);
        }
        proof {
            assert forall|d: DocumentId|
                kept@.contains(d) <==> docs@.take(i + 1).contains(d) && set@.contains(d.0)
                    == members by {
                assert(before.contains(d) <==> docs@.take(i as int).contains(d) && set@.contains(
                    d.0,
                ) == members);
            }
        }
        i += 1;
    }
    assert(docs@.take(docs.len() as int) =~= docs@);
    kept
}

/// The hits whose documents are in `set`, or those whose documents are not,
/// with their scores. Hits in rising order of their documents stay so.
pub fn select_hits(hits: Vec<(DocumentId, Scalar)>, set: &IdSet, members: bool) -> (kept: Vec<
    (DocumentId, Scalar),
>)
    ensures
        forall|d: DocumentId|
            #![trigger hit_docs(kept@).contains(d)]
            #![trigger hit_docs(hits@).contains(d)]
            hit_docs(kept@).contains(d) <==> hit_docs(hits@).contains(d) && set@.contains(d.0)
                == members,
        hit_docs(hits@).no_duplicates() ==> hit_docs(kept@).no_duplicates(),
        rising(hit_docs(hits@)) ==> rising(hit_docs(kept@)),
        forall|i: int| 0 <= i < kept@.len() ==> hits@.contains(#[trigger] kept@[i]),
{
    let mut kept: Vec<(DocumentId, Scalar)> = Vec::new();
    let ghost all = hits@;
    let ghost docs = hit_docs(hits@);
    assert(hit_docs(kept@) =~= Seq::<DocumentId>::empty());
    for hit in it: hits
        invariant
            it.seq() == all,
            docs == hit_docs(all),
            rising(docs) ==> rising(hit_docs(kept@)) && forall|a: int, k: int|
                0 <= a < kept@.len() && it.index() <= k < docs.len() ==> (#[trigger] hit_docs(
                    kept@,
                )[a]).0 < (#[trigger] docs[k]).0,
            forall|d: DocumentId|
                hit_docs(kept@).contains(d) <==> docs.take(it.index() as int).contains(d)
                    && set@.contains(d.0) == members,
            docs.no_duplicates() ==> hit_docs(kept@).no_duplicates(),
            forall|i: int| 0 <= i < kept@.len() ==> all.contains(#[trigger] kept@[i]),
    {
        let ghost i = it.index() as int;
        let ghost before = kept@;
        proof {
            assert(all[i] == hit);
            assert(docs[i] == hit.0);
            lemma_take_next(docs, i);
            lemma_contains_push(hit_docs(before), hit.0);
            lemma_hit_docs_push(before, hit);
            if docs.no_duplicates() {
                if docs.take(i).contains(hit.0) {
                    let k = choose|k: int| 0 <= k < i && docs.take(i)[k] == hit.0;
                    assert(docs[k] == docs[i]);
                }
                lemma_push_fresh(hit_docs(before), hit.0);
            }
        }
        let doc = hit.0;
        if set.contains(doc.0) == members {
            kept.push(hit);
        }
        proof {
            assert forall|d: DocumentId|
                hit_docs(kept@).contains(d) <==> docs.take(i + 1).contains(d) && set@.contains(d.0)
                    == members by {
                assert(hit_docs(before).contains(d) <==> docs.take(i).contains(d) && set@.contains(
                    d.0,
                ) == members);
            }
        }
    }
    assert(docs.take(docs.len() as int) =~= docs);
    kept
}

/// What the children of a conjunction or disjunction have given for one
/// document so far.
pub struct Tally {
    /// The sum of the children's scores, in their order, from zero.
    pub score: Scalar,
    /// The number of children that matched.
    pub count: usize,
}

/// The tally of a hit's document in `tallies` after the hit is counted.
pub open spec fn tally_after(tallies: Map<u32, Tally>, hit: (DocumentId, Scalar)) -> Tally {
    let doc = hit.0;
    if tallies.contains_key(doc.0) {
        Tally {
            score: Scalar::add_spec(tallies[doc.0].score, hit.1),
            count: (tallies[doc.0].count + 1) as usize,
        }
    } else {
        Tally { score: Scalar::add_spec(Scalar::zero_spec(), hit.1), count: 1 }
    }
}

/// Counts each hit in the tally of its document: the score is added, the
/// count goes up by one. A document without a tally gets one.
pub fn accumulate(table: &mut IdTable<Tally>, hits: Vec<(DocumentId, Scalar)>)
    requires
        old(table).wf(),
        hit_docs(hits@).no_duplicates(),
        forall|k: u32| #[trigger]
            old(table).map().contains_key(k) ==> old(table).map()[k].count < usize::MAX,
    ensures
        final(table).wf(),
        forall|d: DocumentId|
            #![trigger final(table).map().contains_key(d.0)]
            final(table).map().contains_key(d.0) <==> old(table).map().contains_key(d.0)
                || hit_docs(hits@).contains(d),
        forall|i: int|
            #![trigger hits@[i]]
            0 <= i < hits@.len() ==> final(table).map()[hit_docs(hits@)[i].0] == tally_after(
                old(table).map(),
                hits@[i],
            ),
        forall|d: DocumentId|
            #![trigger final(table).map()[d.0]]
            old(table).map().contains_key(d.0) && !hit_docs(hits@).contains(d)
                ==> final(table).map()[d.0] == old(table).map()[d.0],
{
    let ghost all = hits@;
    let ghost docs = hit_docs(hits@);
    let ghost start = table.map();
    for hit in it: hits
        invariant
            it.seq() == all,
            docs == hit_docs(all),
            docs.no_duplicates(),
            start == old(table).map(),
            forall|k: u32| #[trigger] start.contains_key(k) ==> start[k].count < usize::MAX,
            table.wf(),
            forall|d: DocumentId|
                #![trigger table.map().contains_key(d.0)]
                table.map().contains_key(d.0) <==> start.contains_key(d.0) || docs.take(
                    it.index() as int,
                ).contains(d),
            forall|i: int|
                #![trigger all[i]]
                0 <= i < it.index() ==> table.map()[docs[i].0] == tally_after(start, all[i]),
            forall|d: DocumentId|
                #![trigger table.map()[d.0]]
                start.contains_key(d.0) && !docs.take(it.index() as int).contains(d)
                    ==> table.map()[d.0] == start[d.0],
    {
        let ghost i = it.index() as int;
        let ghost before = table.map();
        let doc = hit.0;
        let score = hit.1;
        proof {
            assert(all[i] == hit);
            assert(docs[i] == doc);
            if docs.take(i).contains(doc) {
                let k = choose|k: int| 0 <= k < i && docs.take(i)[k] == doc;
                assert(docs[k] == docs[i]);
            }
            assert(before.contains_key(doc.0) <==> start.contains_key(doc.0));
        }
        match table.find(doc.0) {
            Some(slot) => {
                assert(before[doc.0] == start[doc.0]);
                let tally = table.value_mut(slot);
                let mut sum = Scalar::zero();
                core::mem::swap(&mut tally.score, &mut sum);
                tally.score = Scalar::sum(sum, score);
                tally.count = tally.count + 1;
            },
            None => {
                table.push(doc.0, Tally { score: Scalar::sum(Scalar::zero(), score), count: 1 });
            },
        }
        proof {
            let now = table.map();
            assert(now == before.insert(doc.0, tally_after(start, hit)));
            assert forall|d: DocumentId|
                #![trigger table.map().contains_key(d.0)]
                now.contains_key(d.0) <==> start.contains_key(d.0) || docs.take(i + 1).contains(
                    d,
                ) by {
                lemma_take_has(docs, i, d);
                assert(before.contains_key(d.0) <==> start.contains_key(d.0) || docs.take(
                    i,
                ).contains(d));
                assert(d == doc <==> d.0 == doc.0);
            }
            assert forall|j: int|
                #![trigger all[j]]
                0 <= j < i + 1 implies now[docs[j].0] == tally_after(start, all[j]) by {
                if j < i {
                    assert(docs[j] != docs[i]);
                    assert(before[docs[j].0] == tally_after(start, all[j]));
                }
            }
            assert forall|d: DocumentId|
                #![trigger table.map()[d.0]]
                start.contains_key(d.0) && !docs.take(i + 1).contains(d) implies now[d.0]
                == start[d.0] by {
                lemma_take_has(docs, i, d);
                assert(before[d.0] == start[d.0]);
            }
        }
    }
    assert(docs.take(docs.len() as int) =~= docs);
}

/// The documents with a tally, each with its score. With `needed` given,
/// only those that so many children matched.
pub fn tallied(table: IdTable<Tally>, needed: Option<usize>) -> (hits: Vec<(DocumentId, Scalar)>)
    requires
        table.wf(),
    ensures
        forall|d: DocumentId|
            #![trigger hit_docs(hits@).contains(d)]
            hit_docs(hits@).contains(d) <==> table.map().contains_key(d.0) && (needed is None
                || table.map()[d.0].count == needed.unwrap()),
        hit_docs(hits@).no_duplicates(),
        forall|i: int|
            #![trigger hits@[i]]
            0 <= i < hits@.len() ==> hits@[i].1 == table.map()[hit_docs(hits@)[i].0].score,
{
    proof {
        table.lemma_wf();
    }
    let ghost map = table.map();
    let ghost key_seq = table.keys();
    let (keys, values) = table.into_parts();
    let mut hits: Vec<(DocumentId, Scalar)> = Vec::new();
    let ghost all = values@;
    assert(hit_docs(hits@) =~= Seq::<DocumentId>::empty());
    let mut at: usize = 0;
    let n = keys.len();
    for tally in it: values
        invariant
            it.seq() == all,
            at == it.index(),
            n == key_seq.len(),
            keys@ == key_seq,
            key_seq.len() == all.len(),
            key_seq.no_duplicates(),
            forall|i: int|
                0 <= i < key_seq.len() ==> map.contains_key(#[trigger] key_seq[i])
                    && map[key_seq[i]] == all[i],
            forall|k: u32| map.contains_key(k) ==> key_seq.contains(k),
            forall|d: DocumentId|
                #![trigger hit_docs(hits@).contains(d)]
                hit_docs(hits@).contains(d) <==> key_seq.take(it.index() as int).contains(d.0)
                    && (needed is None || map[d.0].count == needed.unwrap()),
            hit_docs(hits@).no_duplicates(),
            forall|i: int|
                #![trigger hits@[i]]
                0 <= i < hits@.len() ==> hits@[i].1 == map[hit_docs(hits@)[i].0].score,
    {
        let ghost i = it.index() as int;
        let ghost before = hits@;
        let key = keys[at];
        let doc = DocumentId(key);
        assert(all[i] == tally);
        assert(map[key_seq[i]] == all[i]);
        let wanted = match needed {
            None => true,
            Some(n) => tally.count == n,
        };
        proof {
            lemma_hit_docs_push(before, (doc, tally.score));
            if key_seq.take(i).contains(key) {
                let k = choose|k: int| 0 <= k < i && key_seq.take(i)[k] == key;
                assert(key_seq[k] == key_seq[i]);
            }
            assert(!hit_docs(before).contains(doc));
            lemma_push_fresh(hit_docs(before), doc);
        }
        if wanted {
            hits.push((doc, tally.score));
        }
        proof {
            assert forall|d: DocumentId|
                #![trigger hit_docs(hits@).contains(d)]
                hit_docs(hits@).contains(d) <==> key_seq.take(i + 1).contains(d.0) && (needed
                    is None || map[d.0].count == needed.unwrap()) by {
                lemma_take_has(key_seq, i, d.0);
                lemma_push_has(hit_docs(before), doc, d);
                assert(hit_docs(before).contains(d) <==> key_seq.take(i).contains(d.0) && (needed
                    is None || map[d.0].count == needed.unwrap()));
                assert(d == doc <==> d.0 == key);
            }
            assert forall|j: int|
                #![trigger hits@[j]]
                0 <= j < hits@.len() implies hits@[j].1 == map[hit_docs(hits@)[j].0].score by {
                if j < before.len() {
                    assert(hits@[j] == before[j]);
                    assert(hit_docs(hits@)[j] == hit_docs(before)[j]);
                }
            }
        }
        assert(at < n);
        at = at + 1;
    }
    proof {
        assert(key_seq.take(key_seq.len() as int) =~= key_seq);
    }
    hits
}

} // verus!
