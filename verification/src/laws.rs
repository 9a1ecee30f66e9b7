//! What holds of the simplifier and of the executor on every input.

use vstd::prelude::*;
use crate::database::{documents_in, documents_with, terms_in, tokens_in, Database};
use crate::ids::{FieldId, TermId};
use crate::source::{resolved, resolved_each, QuerySourceView};
use crate::ids::DocumentId;
use crate::index::hit_docs;
use crate::query::{
    and_flatten, and_spec, exclude_spec, filter_spec, has_match_all, has_match_none, normal,
    not_spec, or_flatten, or_spec, simplified, simplified_each, strip_constants,
    strip_match_all, QueryView,
};
use crate::scalar::Scalar;

verus! {

/// A query matches live documents only.
pub proof fn lemma_matches_live(db: Database, query: QueryView, doc: DocumentId)
    requires
        db.matches(query, doc),
    ensures
        db.live(doc),
    decreases query,
{
    match query {
        QueryView::Or(children) => {
            let i = choose|i: int| 0 <= i < children.len() && db.matches(#[trigger] children[i], doc);
            lemma_matches_live(db, children[i], doc);
        },
        QueryView::And(children) => {
            assert(db.matches(children[0], doc));
            lemma_matches_live(db, children[0], doc);
        },
        QueryView::Filter(inner, _) => {
            lemma_matches_live(db, *inner, doc);
        },
        QueryView::Exclude(inner, _) => {
            lemma_matches_live(db, *inner, doc);
        },
        QueryView::Boost(inner, _) => {
            lemma_matches_live(db, *inner, doc);
        },
        _ => {},
    }
}

/// A deleted document is matched by no query, so that neither the documents
/// nor the scored hits of any query hold it.
pub proof fn lemma_deleted_never_matches(db: Database, query: QueryView, doc: DocumentId)
    requires
        db.deleted_docs@.contains(doc.0),
    ensures
        !db.matches(query, doc),
{
    if db.matches(query, doc) {
        lemma_matches_live(db, query, doc);
    }
}

/// The scored hits of a query hold the documents that its unscored answer
/// holds, and no others.
pub proof fn lemma_hits_are_matches(
    db: Database,
    query: QueryView,
    hits: Seq<(DocumentId, Scalar)>,
    docs: Seq<DocumentId>,
)
    requires
        forall|d: DocumentId|
            #![trigger hit_docs(hits).contains(d)]
            hit_docs(hits).contains(d) <==> db.matches(query, d),
        forall|d: DocumentId| #![trigger docs.contains(d)] docs.contains(d) <==> db.matches(query, d),
    ensures
        hit_docs(hits).to_set() == docs.to_set(),
{
    assert forall|d: DocumentId| hit_docs(hits).to_set().contains(d) <==> docs.to_set().contains(
        d,
    ) by {
        assert(hit_docs(hits).contains(d) <==> db.matches(query, d));
        assert(docs.contains(d) <==> db.matches(query, d));
    }
    assert(hit_docs(hits).to_set() =~= docs.to_set());
}

/// A simplified filter matches what the first query matches and the second
/// matches too; a simplified exclusion, what the first matches and the second
/// does not.
pub proof fn lemma_filter_exclude_match(
    db: Database,
    query: QueryView,
    filter: QueryView,
    doc: DocumentId,
)
    ensures
        db.matches(filter_spec(query, filter), doc) <==> db.matches(query, doc) && db.matches(
            filter,
            doc,
        ),
        db.matches(exclude_spec(query, filter), doc) <==> db.matches(query, doc) && !db.matches(
            filter,
            doc,
        ),
    decreases filter,
{
    reveal_with_fuel(Database::matches, 3);
    if db.matches(query, doc) {
        lemma_matches_live(db, query, doc);
    }
    if !(query is MatchNone) {
        match filter {
            QueryView::Filter(a, inner) => {
                if *a is MatchAll {
                    lemma_filter_exclude_match(db, query, *inner, doc);
                }
            },
            QueryView::Exclude(a, inner) => {
                if *a is MatchAll {
                    lemma_filter_exclude_match(db, query, *inner, doc);
                }
            },
            _ => {},
        }
    }
}

/// The negation of the negation of a query matches what the query matches.
pub proof fn lemma_not_not(db: Database, query: QueryView, doc: DocumentId)
    ensures
        db.matches(not_spec(not_spec(query)), doc) <==> db.matches(query, doc),
{
    lemma_filter_exclude_match(db, QueryView::MatchAll, query, doc);
    lemma_filter_exclude_match(db, QueryView::MatchAll, not_spec(query), doc);
    if db.matches(query, doc) {
        lemma_matches_live(db, query, doc);
    }
}

/// A sequence without `MatchAll` and `MatchNone` is left as it is when they
/// are stripped.
pub proof fn lemma_strip_nothing(qs: Seq<QueryView>)
    requires
        forall|i: int| 0 <= i < qs.len() ==> !(qs[i] is MatchAll) && !(qs[i] is MatchNone),
    ensures
        strip_constants(qs) == qs,
        !has_match_all(qs),
    decreases qs.len(),
{
    if qs.len() > 0 {
        lemma_strip_nothing(qs.drop_last());
        assert(qs.drop_last().push(qs.last()) =~= qs);
    }
}

/// Whether the children could stand under a disjunction that the simplifier
/// made: two or more, none `MatchNone`, and `MatchAll` in last place only.
pub open spec fn tidy_or(children: Seq<QueryView>) -> bool {
    &&& children.len() >= 2
    &&& forall|i: int| 0 <= i < children.len() ==> !(#[trigger] children[i] is MatchNone)
    &&& forall|i: int| 0 <= i < children.len() - 1 ==> !(#[trigger] children[i] is MatchAll)
}

/// The disjunction of one query simplifies to that query, unless the query
/// is itself a disjunction that the simplifier would not have made.
pub proof fn lemma_or_single(x: QueryView)
    requires
        x is Or ==> tidy_or(x->Or_0),
    ensures
        or_spec(seq![x]) == x,
{
    reveal_with_fuel(or_flatten, 3);
    reveal_with_fuel(strip_constants, 3);
    let qs = seq![x];
    assert(qs.drop_last() =~= Seq::<QueryView>::empty());
    assert(qs.last() == x);
    let empty = Seq::<QueryView>::empty();
    match x {
        QueryView::Or(children) => {
            assert(or_flatten(qs) =~= children);
            let front = children.drop_last();
            lemma_strip_nothing(front);
            assert(front.push(children.last()) =~= children);
            if children.last() is MatchAll {
                assert(has_match_all(children));
                assert(strip_constants(children) == front);
            } else {
                assert(strip_constants(children) == children);
                lemma_strip_nothing(children);
            }
        },
        _ => {
            assert(or_flatten(qs) =~= seq![x]);
            assert(seq![x].drop_last() =~= empty);
            if x is MatchAll {
                assert(seq![x][0] is MatchAll);
                assert(empty.push(QueryView::MatchAll)[0] == x);
            } else if x is MatchNone {
                if has_match_all(seq![x]) {
                    let i = choose|i: int| 0 <= i < seq![x].len() && seq![x][i] is MatchAll;
                }
            } else {
                if has_match_all(seq![x]) {
                    let i = choose|i: int| 0 <= i < seq![x].len() && seq![x][i] is MatchAll;
                }
                assert(strip_constants(seq![x]) =~= seq![x]);
            }
        },
    }
}

/// The conjunction of one query simplifies to that query, unless the query
/// is itself a conjunction of fewer than two.
pub proof fn lemma_and_single(x: QueryView)
    requires
        x is And ==> x->And_0.len() >= 2,
    ensures
        and_spec(seq![x]) == x,
{
    reveal_with_fuel(and_flatten, 3);
    reveal_with_fuel(strip_match_all, 3);
    let qs = seq![x];
    let empty = Seq::<QueryView>::empty();
    assert(qs.drop_last() =~= empty);
    assert(qs.last() == x);
    if has_match_all(qs) {
        let i = choose|i: int| 0 <= i < qs.len() && qs[i] is MatchAll;
        assert(x is MatchAll);
    }
    if has_match_none(qs) {
        let i = choose|i: int| 0 <= i < qs.len() && qs[i] is MatchNone;
        assert(x is MatchNone);
    }
    if x is MatchAll {
        assert(qs[0] is MatchAll);
        assert(strip_match_all(qs) =~= empty);
    } else if x is MatchNone {
        assert(qs[0] is MatchNone);
    } else {
        assert(strip_match_all(qs) =~= qs);
        match x {
            QueryView::And(children) => {
                assert(and_flatten(qs) =~= children);
            },
            _ => {
                assert(and_flatten(qs) =~= seq![x]);
            },
        }
    }
}

/// Whether each of the queries is normal and fit to stand under a
/// disjunction, but for where `MatchAll` stands.
pub open spec fn or_parts(qs: Seq<QueryView>) -> bool {
    forall|i: int| 0 <= i < qs.len() ==> normal(#[trigger] qs[i]) && !(qs[i] is Or)
}

/// Whether each of the queries is normal and fit to stand under a
/// conjunction.
pub open spec fn and_parts(qs: Seq<QueryView>) -> bool {
    forall|i: int|
        0 <= i < qs.len() ==> normal(#[trigger] qs[i]) && !(qs[i] is And) && !(qs[i] is MatchAll)
            && !(qs[i] is MatchNone)
}

/// Whether each of the queries is normal.
pub open spec fn all_normal(qs: Seq<QueryView>) -> bool {
    forall|i: int| 0 <= i < qs.len() ==> normal(#[trigger] qs[i])
}

/// What a disjunction of normal queries draws on is normal, and holds no
/// disjunction.
pub proof fn lemma_or_flatten_parts(qs: Seq<QueryView>)
    requires
        all_normal(qs),
    ensures
        or_parts(or_flatten(qs)),
    decreases qs.len(),
{
    if qs.len() > 0 {
        let front = qs.drop_last();
        assert forall|i: int| 0 <= i < front.len() implies normal(#[trigger] front[i]) by {
            assert(front[i] == qs[i]);
        }
        lemma_or_flatten_parts(front);
        let last = qs.last();
        assert(normal(last));
        let tail = match last {
            QueryView::Or(inner) => inner,
            q => seq![q],
        };
        assert forall|i: int| 0 <= i < tail.len() implies normal(#[trigger] tail[i]) && !(tail[i]
            is Or) by {}
        let flat = or_flatten(qs);
        assert(flat == or_flatten(front) + tail);
        assert forall|i: int| 0 <= i < flat.len() implies normal(#[trigger] flat[i]) && !(flat[i]
            is Or) by {
            if i < or_flatten(front).len() {
                assert(flat[i] == or_flatten(front)[i]);
            } else {
                assert(flat[i] == tail[i - or_flatten(front).len()]);
            }
        }
    }
}

/// What is left of such parts without the constants is normal, and holds
/// neither a disjunction nor a constant.
pub proof fn lemma_strip_parts(qs: Seq<QueryView>)
    requires
        or_parts(qs),
    ensures
        or_parts(strip_constants(qs)),
        forall|i: int|
            0 <= i < strip_constants(qs).len() ==> !(#[trigger] strip_constants(qs)[i] is MatchAll)
                && !(strip_constants(qs)[i] is MatchNone),
    decreases qs.len(),
{
    if qs.len() > 0 {
        let front = qs.drop_last();
        assert forall|i: int| 0 <= i < front.len() implies normal(#[trigger] front[i]) && !(
        front[i] is Or) by {
            assert(front[i] == qs[i]);
        }
        lemma_strip_parts(front);
        assert(normal(qs[qs.len() - 1]));
    }
}

/// The disjunction of normal queries is normal.
pub proof fn lemma_or_normal(qs: Seq<QueryView>)
    requires
        all_normal(qs),
    ensures
        normal(or_spec(qs)),
{
    lemma_or_flatten_parts(qs);
    let flat = or_flatten(qs);
    lemma_strip_parts(flat);
    let kept = strip_constants(flat);
    let list = if has_match_all(flat) {
        kept.push(QueryView::MatchAll)
    } else {
        kept
    };
    assert forall|i: int| 0 <= i < list.len() implies normal(#[trigger] list[i]) && !(list[i]
        is Or) && !(list[i] is MatchNone) && (list[i] is MatchAll ==> i == list.len() - 1) by {
        if i < kept.len() {
            assert(list[i] == kept[i]);
        }
    }
}

/// What is left of normal queries without `MatchAll` is normal.
pub proof fn lemma_strip_all_parts(qs: Seq<QueryView>)
    requires
        all_normal(qs),
        !has_match_none(qs),
    ensures
        all_normal(strip_match_all(qs)),
        forall|i: int|
            0 <= i < strip_match_all(qs).len() ==> !(#[trigger] strip_match_all(qs)[i] is MatchAll)
                && !(strip_match_all(qs)[i] is MatchNone),
    decreases qs.len(),
{
    if qs.len() > 0 {
        let front = qs.drop_last();
        assert forall|i: int| 0 <= i < front.len() implies normal(#[trigger] front[i]) by {
            assert(front[i] == qs[i]);
        }
        if has_match_none(front) {
            let i = choose|i: int| 0 <= i < front.len() && front[i] is MatchNone;
            assert(qs[i] is MatchNone);
        }
        lemma_strip_all_parts(front);
        assert(normal(qs[qs.len() - 1]));
        assert(!(qs[qs.len() - 1] is MatchNone));
    }
}

/// What a conjunction of such queries draws on is fit to stand under a
/// conjunction.
pub proof fn lemma_and_flatten_parts(qs: Seq<QueryView>)
    requires
        all_normal(qs),
        forall|i: int| 0 <= i < qs.len() ==> !(#[trigger] qs[i] is MatchAll) && !(qs[i] is MatchNone),
    ensures
        and_parts(and_flatten(qs)),
    decreases qs.len(),
{
    if qs.len() > 0 {
        let front = qs.drop_last();
        assert forall|i: int| 0 <= i < front.len() implies normal(#[trigger] front[i]) && !(
        front[i] is MatchAll) && !(front[i] is MatchNone) by {
            assert(front[i] == qs[i]);
        }
        lemma_and_flatten_parts(front);
        let last = qs.last();
        assert(normal(last) && !(qs[qs.len() - 1] is MatchAll));
        let tail = match last {
            QueryView::And(inner) => inner,
            q => seq![q],
        };
        assert forall|i: int| 0 <= i < tail.len() implies normal(#[trigger] tail[i]) && !(tail[i]
            is And) && !(tail[i] is MatchAll) && !(tail[i] is MatchNone) by {}
        let flat = and_flatten(qs);
        assert(flat == and_flatten(front) + tail);
        assert forall|i: int| 0 <= i < flat.len() implies normal(#[trigger] flat[i]) && !(flat[i]
            is And) && !(flat[i] is MatchAll) && !(flat[i] is MatchNone) by {
            if i < and_flatten(front).len() {
                assert(flat[i] == and_flatten(front)[i]);
            } else {
                assert(flat[i] == tail[i - and_flatten(front).len()]);
            }
        }
    }
}

/// The conjunction of normal queries is normal.
pub proof fn lemma_and_normal(qs: Seq<QueryView>)
    requires
        all_normal(qs),
    ensures
        normal(and_spec(qs)),
{
    if !has_match_none(qs) {
        lemma_strip_all_parts(qs);
        lemma_and_flatten_parts(strip_match_all(qs));
        let list = and_flatten(strip_match_all(qs));
        if list.len() == 1 {
            assert(normal(list[0]));
        }
    }
}

/// The filter and the exclusion of normal queries are normal.
pub proof fn lemma_filter_normal(query: QueryView, filter: QueryView)
    requires
        normal(query),
        normal(filter),
    ensures
        normal(filter_spec(query, filter)),
        normal(exclude_spec(query, filter)),
    decreases filter,
{
    reveal_with_fuel(normal, 2);
    if !(query is MatchNone) {
        match filter {
            QueryView::Filter(a, inner) => {
                if *a is MatchAll {
                    lemma_filter_normal(query, *inner);
                }
            },
            QueryView::Exclude(a, inner) => {
                if *a is MatchAll {
                    lemma_filter_normal(query, *inner);
                }
            },
            _ => {},
        }
    }
}

/// What the simplifier makes of any query is normal.
pub proof fn lemma_simplified_normal(q: QueryView)
    ensures
        normal(simplified(q)),
    decreases q,
{
    match q {
        QueryView::Or(children) => {
            let each = simplified_each(children);
            assert forall|i: int| 0 <= i < each.len() implies normal(#[trigger] each[i]) by {
                lemma_simplified_normal(children[i]);
            }
            lemma_or_normal(each);
        },
        QueryView::And(children) => {
            let each = simplified_each(children);
            assert forall|i: int| 0 <= i < each.len() implies normal(#[trigger] each[i]) by {
                lemma_simplified_normal(children[i]);
            }
            lemma_and_normal(each);
        },
        QueryView::Filter(query, filter) => {
            lemma_simplified_normal(*query);
            lemma_simplified_normal(*filter);
            lemma_filter_normal(simplified(*query), simplified(*filter));
        },
        QueryView::Exclude(query, filter) => {
            lemma_simplified_normal(*query);
            lemma_simplified_normal(*filter);
            lemma_filter_normal(simplified(*query), simplified(*filter));
        },
        QueryView::Boost(query, _) => {
            lemma_simplified_normal(*query);
        },
        _ => {},
    }
}

/// Queries of which none is a disjunction are what a disjunction of them
/// draws on.
pub proof fn lemma_or_flatten_same(qs: Seq<QueryView>)
    requires
        forall|i: int| 0 <= i < qs.len() ==> !(#[trigger] qs[i] is Or),
    ensures
        or_flatten(qs) == qs,
    decreases qs.len(),
{
    if qs.len() > 0 {
        let front = qs.drop_last();
        assert forall|i: int| 0 <= i < front.len() implies !(#[trigger] front[i] is Or) by {
            assert(front[i] == qs[i]);
        }
        lemma_or_flatten_same(front);
        assert(!(qs[qs.len() - 1] is Or));
        assert(front + seq![qs.last()] =~= qs);
    }
}

/// Queries of which none is a conjunction are what a conjunction of them
/// draws on.
pub proof fn lemma_and_flatten_same(qs: Seq<QueryView>)
    requires
        forall|i: int| 0 <= i < qs.len() ==> !(#[trigger] qs[i] is And),
    ensures
        and_flatten(qs) == qs,
    decreases qs.len(),
{
    if qs.len() > 0 {
        let front = qs.drop_last();
        assert forall|i: int| 0 <= i < front.len() implies !(#[trigger] front[i] is And) by {
            assert(front[i] == qs[i]);
        }
        lemma_and_flatten_same(front);
        assert(!(qs[qs.len() - 1] is And));
        assert(front + seq![qs.last()] =~= qs);
    }
}

/// A sequence without `MatchAll` is left as it is when `MatchAll` is
/// stripped.
pub proof fn lemma_strip_all_nothing(qs: Seq<QueryView>)
    requires
        forall|i: int| 0 <= i < qs.len() ==> !(#[trigger] qs[i] is MatchAll),
    ensures
        strip_match_all(qs) == qs,
    decreases qs.len(),
{
    if qs.len() > 0 {
        let front = qs.drop_last();
        assert forall|i: int| 0 <= i < front.len() implies !(#[trigger] front[i] is MatchAll) by {
            assert(front[i] == qs[i]);
        }
        lemma_strip_all_nothing(front);
        assert(!(qs[qs.len() - 1] is MatchAll));
        assert(front.push(qs.last()) =~= qs);
    }
}

/// The simplifier leaves a normal query as it is.
pub proof fn lemma_normal_fixed(q: QueryView)
    requires
        normal(q),
    ensures
        simplified(q) == q,
    decreases q,
{
    match q {
        QueryView::Or(children) => {
            let each = simplified_each(children);
            assert forall|i: int| 0 <= i < children.len() implies each[i] == children[i] by {
                assert(normal(children[i]));
                lemma_normal_fixed(children[i]);
            }
            assert(each =~= children);
            assert forall|i: int| 0 <= i < children.len() implies !(#[trigger] children[i]
                is Or) by {
                assert(normal(children[i]));
            }
            lemma_or_flatten_same(children);
            assert(tidy_or(children)) by {
                assert forall|i: int| 0 <= i < children.len() implies !(#[trigger] children[i]
                    is MatchNone) by {
                    assert(normal(children[i]));
                }
                assert forall|i: int| 0 <= i < children.len() - 1 implies !(
                #[trigger] children[i] is MatchAll) by {
                    assert(normal(children[i]));
                }
            }
            lemma_tidy_or(children);
        },
        QueryView::And(children) => {
            let each = simplified_each(children);
            assert forall|i: int| 0 <= i < children.len() implies each[i] == children[i] by {
                assert(normal(children[i]));
                lemma_normal_fixed(children[i]);
            }
            assert(each =~= children);
            assert forall|i: int| 0 <= i < children.len() implies !(#[trigger] children[i]
                is And) && !(children[i] is MatchAll) && !(children[i] is MatchNone) by {
                assert(normal(children[i]));
            }
            lemma_strip_all_nothing(children);
            lemma_and_flatten_same(children);
            if has_match_none(children) {
                let i = choose|i: int| 0 <= i < children.len() && children[i] is MatchNone;
                assert(!(children[i] is MatchNone));
            }
        },
        QueryView::Filter(query, filter) => {
            lemma_normal_fixed(*query);
            lemma_normal_fixed(*filter);
        },
        QueryView::Exclude(query, filter) => {
            lemma_normal_fixed(*query);
            lemma_normal_fixed(*filter);
        },
        QueryView::Boost(query, _) => {
            lemma_normal_fixed(*query);
        },
        _ => {},
    }
}

/// What a disjunction draws on, where that is tidy, is what it keeps.
pub proof fn lemma_tidy_or(children: Seq<QueryView>)
    requires
        tidy_or(children),
        or_flatten(children) == children,
    ensures
        or_spec(children) == QueryView::Or(children),
{
    let front = children.drop_last();
    lemma_strip_nothing(front);
    assert(front.push(children.last()) =~= children);
    if children.last() is MatchAll {
        assert(children[children.len() - 1] is MatchAll);
        assert(has_match_all(children));
        assert(strip_constants(children) == front);
    } else {
        lemma_strip_nothing(children);
    }
}

/// The simplifier is idempotent: what it makes of a query it leaves as it
/// is.
pub proof fn lemma_simplify_idempotent(q: QueryView)
    ensures
        simplified(simplified(q)) == simplified(q),
{
    lemma_simplified_normal(q);
    lemma_normal_fixed(simplified(q));
}

/// What a named query resolves to is normal, so that the simplifier would
/// leave it as it is.
pub proof fn lemma_resolved_normal(
    source: QuerySourceView,
    terms: Map<Seq<char>, TermId>,
    fields: Map<Seq<char>, FieldId>,
)
    ensures
        normal(resolved(source, terms, fields)),
        simplified(resolved(source, terms, fields)) == resolved(source, terms, fields),
    decreases source,
{
    match source {
        QuerySourceView::Or(children) => {
            let each = resolved_each(children, terms, fields);
            assert forall|i: int| 0 <= i < each.len() implies normal(#[trigger] each[i]) by {
                lemma_resolved_normal(children[i], terms, fields);
            }
            lemma_or_normal(each);
        },
        QuerySourceView::And(children) => {
            let each = resolved_each(children, terms, fields);
            assert forall|i: int| 0 <= i < each.len() implies normal(#[trigger] each[i]) by {
                lemma_resolved_normal(children[i], terms, fields);
            }
            lemma_and_normal(each);
        },
        QuerySourceView::Filter(query, filter) => {
            lemma_resolved_normal(*query, terms, fields);
            lemma_resolved_normal(*filter, terms, fields);
            lemma_filter_normal(resolved(*query, terms, fields), resolved(*filter, terms, fields));
        },
        QuerySourceView::Exclude(query, filter) => {
            lemma_resolved_normal(*query, terms, fields);
            lemma_resolved_normal(*filter, terms, fields);
            lemma_filter_normal(resolved(*query, terms, fields), resolved(*filter, terms, fields));
        },
        QuerySourceView::Boost(query, _) => {
            lemma_resolved_normal(*query, terms, fields);
        },
        _ => {},
    }
    lemma_normal_fixed(resolved(source, terms, fields));
}

/// In a well-formed database the index of each field has counted the
/// documents that were inserted with that field, and the tokens that the
/// field had in them. A database is well-formed when it is made, and stays so
/// under insertion and deletion.
pub proof fn lemma_statistics(db: Database, field: FieldId)
    requires
        db.wf(),
    ensures
        documents_in(db.fields.map(), field.0) == documents_with(db.docs@, field.0),
        terms_in(db.fields.map(), field.0) == tokens_in(db.docs@, field.0),
{
}

} // verus!
