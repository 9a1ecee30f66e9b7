//! The query algebra and its simplifying constructors.

use vstd::prelude::*;
use crate::ids::{FieldId, TermId};

verus! {

/// A query tree.
#[derive(Debug, PartialEq)]
pub enum Query {
    /// Every live document.
    MatchAll,
    /// No document.
    MatchNone,
    /// The documents whose field holds the term.
    Term(FieldId, TermId),
    /// The documents whose field holds the terms at consecutive positions.
    Phrase(FieldId, Vec<TermId>),
    /// The documents that any child matches.
    Or(Vec<Query>),
    /// The documents that every child matches.
    And(Vec<Query>),
    /// The documents of the first query that the second matches too.
    Filter(Box<Query>, Box<Query>),
    /// The documents of the first query that the second does not match.
    Exclude(Box<Query>, Box<Query>),
    /// The first query, its scores multiplied by the single-precision value
    /// with the given bit pattern.
    Boost(Box<Query>, u32),
}

/// The mathematical value of a [`Query`].
pub ghost enum QueryView {
    MatchAll,
    MatchNone,
    Term(FieldId, TermId),
    Phrase(FieldId, Seq<TermId>),
    Or(Seq<QueryView>),
    And(Seq<QueryView>),
    Filter(Box<QueryView>, Box<QueryView>),
    Exclude(Box<QueryView>, Box<QueryView>),
    Boost(Box<QueryView>, u32),
}

/// The values of a sequence of queries, one for one.
pub open spec fn views(qs: Seq<Query>) -> Seq<QueryView> {
    Seq::new(qs.len(), |i: int| qs[i]@)
}

impl Query {
    /// The mathematical value of the query.
    pub open spec fn model(&self) -> QueryView
        decreases self,
    {
        match self {
            Query::MatchAll => QueryView::MatchAll,
            Query::MatchNone => QueryView::MatchNone,
            Query::Term(f, t) => QueryView::Term(*f, *t),
            Query::Phrase(f, ts) => QueryView::Phrase(*f, ts@),
            Query::Or(cs) => QueryView::Or(
                Seq::new(
                    cs.len() as nat,
                    |i: int|
                        if 0 <= i < cs.len() {
                            cs[i].model()
                        } else {
                            QueryView::MatchNone
                        },
                ),
            ),
            Query::And(cs) => QueryView::And(
                Seq::new(
                    cs.len() as nat,
                    |i: int|
                        if 0 <= i < cs.len() {
                            cs[i].model()
                        } else {
                            QueryView::MatchNone
                        },
                ),
            ),
            Query::Filter(q, f) => QueryView::Filter(Box::new(q.model()), Box::new(f.model())),
            Query::Exclude(q, f) => QueryView::Exclude(Box::new(q.model()), Box::new(f.model())),
            Query::Boost(q, k) => QueryView::Boost(Box::new(q.model()), *k),
        }
    }
}

impl View for Query {
    type V = QueryView;

    open spec fn view(&self) -> QueryView {
        self.model()
    }
}

/// The view of a disjunction is the disjunction of the children's views.
pub proof fn lemma_view_or(cs: Vec<Query>)
    ensures
        Query::Or(cs)@ == QueryView::Or(views(cs@)),
{
    assert(Query::Or(cs)@->Or_0 =~= views(cs@));
}

/// The view of a conjunction is the conjunction of the children's views.
pub proof fn lemma_view_and(cs: Vec<Query>)
    ensures
        Query::And(cs)@ == QueryView::And(views(cs@)),
{
    assert(Query::And(cs)@->And_0 =~= views(cs@));
}

/// The children that a simplified disjunction draws on: those of `qs`, with
/// the children of each nested disjunction in its place.
pub open spec fn or_flatten(qs: Seq<QueryView>) -> Seq<QueryView>
    decreases qs.len(),
{
    if qs.len() == 0 {
        Seq::empty()
    } else {
        or_flatten(qs.drop_last()) + match qs.last() {
            QueryView::Or(inner) => inner,
            q => seq![q],
        }
    }
}

/// The children that a simplified conjunction draws on: those of `qs`, with
/// the children of each nested conjunction in its place.
pub open spec fn and_flatten(qs: Seq<QueryView>) -> Seq<QueryView>
    decreases qs.len(),
{
    if qs.len() == 0 {
        Seq::empty()
    } else {
        and_flatten(qs.drop_last()) + match qs.last() {
            QueryView::And(inner) => inner,
            q => seq![q],
        }
    }
}

/// Whether `MatchAll` occurs in `qs`.
pub open spec fn has_match_all(qs: Seq<QueryView>) -> bool {
    exists|i: int| 0 <= i < qs.len() && qs[i] is MatchAll
}

/// Whether `MatchNone` occurs in `qs`.
pub open spec fn has_match_none(qs: Seq<QueryView>) -> bool {
    exists|i: int| 0 <= i < qs.len() && qs[i] is MatchNone
}

/// `qs` without `MatchAll` and `MatchNone`, in order.
pub open spec fn strip_constants(qs: Seq<QueryView>) -> Seq<QueryView>
    decreases qs.len(),
{
    if qs.len() == 0 {
        Seq::empty()
    } else if qs.last() is MatchAll || qs.last() is MatchNone {
        strip_constants(qs.drop_last())
    } else {
        strip_constants(qs.drop_last()).push(qs.last())
    }
}

/// `qs` without `MatchAll`, in order.
pub open spec fn strip_match_all(qs: Seq<QueryView>) -> Seq<QueryView>
    decreases qs.len(),
{
    if qs.len() == 0 {
        Seq::empty()
    } else if qs.last() is MatchAll {
        strip_match_all(qs.drop_last())
    } else {
        strip_match_all(qs.drop_last()).push(qs.last())
    }
}

/// What [`Query::or`] returns.
///
/// Nested disjunctions are spliced in, one level deep. `MatchNone` is
/// dropped. Of all the `MatchAll` one is kept, in last place. Nothing left
/// gives `MatchNone`, one child left gives that child.
pub open spec fn or_spec(qs: Seq<QueryView>) -> QueryView {
    let flat = or_flatten(qs);
    let kept = strip_constants(flat);
    let list = if has_match_all(flat) {
        kept.push(QueryView::MatchAll)
    } else {
        kept
    };
    if list.len() == 0 {
        QueryView::MatchNone
    } else if list.len() == 1 {
        list[0]
    } else {
        QueryView::Or(list)
    }
}

/// What [`Query::and`] returns.
///
/// A `MatchNone` among the children gives `MatchNone`. Otherwise `MatchAll`
/// children are dropped and the children of nested conjunctions are spliced
/// in as they are, one level deep. Nothing left gives `MatchAll` if one was
/// dropped and `MatchNone` if not; one child left gives that child.
pub open spec fn and_spec(qs: Seq<QueryView>) -> QueryView {
    let list = and_flatten(strip_match_all(qs));
    if has_match_none(qs) {
        QueryView::MatchNone
    } else if list.len() == 0 {
        if has_match_all(qs) {
            QueryView::MatchAll
        } else {
            QueryView::MatchNone
        }
    } else if list.len() == 1 {
        list[0]
    } else {
        QueryView::And(list)
    }
}

/// What [`Query::filter`] returns.
pub open spec fn filter_spec(q: QueryView, f: QueryView) -> QueryView
    decreases f, 0nat,
{
    if q is MatchNone {
        QueryView::MatchNone
    } else {
        match f {
            QueryView::MatchAll => q,
            QueryView::MatchNone => QueryView::MatchNone,
            QueryView::Filter(a, inner) => if *a is MatchAll {
                filter_spec(q, *inner)
            } else {
                QueryView::Filter(Box::new(q), Box::new(f))
            },
            QueryView::Exclude(a, inner) => if *a is MatchAll {
                exclude_spec(q, *inner)
            } else {
                QueryView::Filter(Box::new(q), Box::new(f))
            },
            _ => QueryView::Filter(Box::new(q), Box::new(f)),
        }
    }
}

/// What [`Query::exclude`] returns.
pub open spec fn exclude_spec(q: QueryView, f: QueryView) -> QueryView
    decreases f, 0nat,
{
    if q is MatchNone {
        QueryView::MatchNone
    } else {
        match f {
            QueryView::MatchAll => QueryView::MatchNone,
            QueryView::MatchNone => q,
            QueryView::Filter(a, inner) => if *a is MatchAll {
                exclude_spec(q, *inner)
            } else {
                QueryView::Exclude(Box::new(q), Box::new(f))
            },
            QueryView::Exclude(a, inner) => if *a is MatchAll {
                filter_spec(q, *inner)
            } else {
                QueryView::Exclude(Box::new(q), Box::new(f))
            },
            _ => QueryView::Exclude(Box::new(q), Box::new(f)),
        }
    }
}

/// What [`Query::not`] returns.
pub open spec fn not_spec(q: QueryView) -> QueryView {
    exclude_spec(QueryView::MatchAll, q)
}

/// The query rebuilt with the simplifying constructors, from the leaves up.
pub open spec fn simplified(q: QueryView) -> QueryView
    decreases q, 0nat,
{
    match q {
        QueryView::Or(children) => or_spec(simplified_each(children)),
        QueryView::And(children) => and_spec(simplified_each(children)),
        QueryView::Filter(query, filter) => filter_spec(simplified(*query), simplified(*filter)),
        QueryView::Exclude(query, filter) => exclude_spec(simplified(*query), simplified(*filter)),
        QueryView::Boost(query, factor) => QueryView::Boost(Box::new(simplified(*query)), factor),
        _ => q,
    }
}

/// The queries rebuilt, one for one.
pub open spec fn simplified_each(qs: Seq<QueryView>) -> Seq<QueryView>
    decreases qs, 1nat,
{
    Seq::new(
        qs.len(),
        |i: int|
            if 0 <= i < qs.len() {
                simplified(qs[i])
            } else {
                QueryView::MatchNone
            },
    )
}

/// Whether a filter is none of those that the constructors rewrite: neither
/// constant nor a filter or exclusion of `MatchAll`.
pub open spec fn plain_filter(f: QueryView) -> bool {
    &&& !(f is MatchAll)
    &&& !(f is MatchNone)
    &&& !(f is Filter && *f->Filter_0 is MatchAll)
    &&& !(f is Exclude && *f->Exclude_0 is MatchAll)
}

/// Whether the query is one that the simplifying constructors leave as it
/// is, in every part.
///
/// A disjunction has two or more children, none a disjunction or
/// `MatchNone`, and `MatchAll` in last place only. A conjunction has two or
/// more children, none a conjunction or a constant. A filter or exclusion has
/// a first query other than `MatchNone` and a plain filter.
pub open spec fn normal(q: QueryView) -> bool
    decreases q,
{
    match q {
        QueryView::Or(children) => children.len() >= 2 && forall|i: int|
            0 <= i < children.len() ==> {
                &&& normal(#[trigger] children[i])
                &&& !(children[i] is Or)
                &&& !(children[i] is MatchNone)
                &&& (children[i] is MatchAll ==> i == children.len() - 1)
            },
        QueryView::And(children) => children.len() >= 2 && forall|i: int|
            0 <= i < children.len() ==> {
                &&& normal(#[trigger] children[i])
                &&& !(children[i] is And)
                &&& !(children[i] is MatchNone)
                &&& !(children[i] is MatchAll)
            },
        QueryView::Filter(query, filter) => normal(*query) && normal(*filter) && !(*query
            is MatchNone) && plain_filter(*filter),
        QueryView::Exclude(query, filter) => normal(*query) && normal(*filter) && !(*query
            is MatchNone) && plain_filter(*filter),
        QueryView::Boost(query, _) => normal(*query),
        _ => true,
    }
}

/// Adds `q` to the children kept for a disjunction, unless it is a constant.
fn keep_in_or(kept: &mut Vec<Query>, saw_all: &mut bool, q: Query, Ghost(seen): Ghost<Seq<QueryView>>)
    requires
        views(old(kept)@) == strip_constants(seen),
        *old(saw_all) == has_match_all(seen),
    ensures
        views(final(kept)@) == strip_constants(seen.push(q@)),
        *final(saw_all) == has_match_all(seen.push(q@)),
{
    proof {
        assert(seen.push(q@).drop_last() =~= seen);
        if has_match_all(seen) {
            let i = choose|i: int| 0 <= i < seen.len() && seen[i] is MatchAll;
            assert(seen.push(q@)[i] is MatchAll);
        }
        if has_match_all(seen.push(q@)) && !(q@ is MatchAll) {
            let i = choose|i: int| 0 <= i < seen.len() + 1 && seen.push(q@)[i] is MatchAll;
            assert(seen[i] is MatchAll);
        }
        if q@ is MatchAll {
            assert(seen.push(q@)[seen.len() as int] is MatchAll);
        }
    }
    match q {
        Query::MatchNone => {},
        Query::MatchAll => {
            *saw_all = true;
        },
        other => {
            let ghost before = kept@;
            kept.push(other);
            assert(views(kept@) =~= views(before).push(q@));
        },
    }
}

impl Query {
    pub fn match_all() -> (r: Query)
        ensures
            r@ == QueryView::MatchAll,
    {
        Query::MatchAll
    }

    pub fn match_none() -> (r: Query)
        ensures
            r@ == QueryView::MatchNone,
    {
        Query::MatchNone
    }

    pub fn term(field: FieldId, term: TermId) -> (r: Query)
        ensures
            r@ == QueryView::Term(field, term),
    {
        Query::Term(field, term)
    }

    pub fn phrase(field: FieldId, terms: Vec<TermId>) -> (r: Query)
        ensures
            r@ == QueryView::Phrase(field, terms@),
    {
        Query::Phrase(field, terms)
    }

    /// The disjunction of `queries`, simplified.
    pub fn or(queries: Vec<Query>) -> (r: Query)
        ensures
            r@ == or_spec(views(queries@)),
    {
        let ghost qs = views(queries@);
        let mut kept: Vec<Query> = Vec::new();
        let mut saw_all = false;
        let ghost mut flat: Seq<QueryView> = Seq::empty();
        assert(views(kept@) =~= strip_constants(flat));
        for query in it: queries
            invariant
                it.seq() == queries@,
                qs == views(queries@),
                flat == or_flatten(qs.take(it.index() as int)),
                views(kept@) == strip_constants(flat),
                saw_all == has_match_all(flat),
        {
            proof {
                let i = it.index() as int;
                assert(qs.take(i + 1).drop_last() =~= qs.take(i));
                assert(qs.take(i + 1).last() == query@);
            }
            match query {
                Query::Or(inner) => {
                    proof {
                        lemma_view_or(inner);
                    }
                    let ghost base = flat;
                    let ghost inner_views = views(inner@);
                    assert(base + inner_views.take(0) =~= base);
                    for child in jt: inner
                        invariant
                            jt.seq() == inner@,
                            inner_views == views(inner@),
                            flat == base + inner_views.take(jt.index() as int),
                            views(kept@) == strip_constants(flat),
                            saw_all == has_match_all(flat),
                    {
                        proof {
                            let j = jt.index() as int;
                            assert(flat.push(child@) =~= base + inner_views.take(j + 1));
                        }
                        keep_in_or(&mut kept, &mut saw_all, child, Ghost(flat));
                        proof {
                            flat = flat.push(child@);
                        }
                    }
                    assert(inner_views.take(inner_views.len() as int) =~= inner_views);
                },
                other => {
                    assert(flat.push(other@) =~= flat + seq![other@]);
                    keep_in_or(&mut kept, &mut saw_all, other, Ghost(flat));
                    proof {
                        flat = flat.push(other@);
                    }
                },
            }
        }
        assert(qs.take(qs.len() as int) =~= qs);
        if saw_all {
            let ghost before = kept@;
            kept.push(Query::MatchAll);
            assert(views(kept@) =~= views(before).push(QueryView::MatchAll));
        }
        if kept.len() == 0 {
            Query::MatchNone
        } else if kept.len() == 1 {
            let only = kept.pop().unwrap();
            only
        } else {
            proof {
                lemma_view_or(kept);
            }
            Query::Or(kept)
        }
    }

    /// The conjunction of `queries`, simplified.
    pub fn and(queries: Vec<Query>) -> (r: Query)
        ensures
            r@ == and_spec(views(queries@)),
    {
        let ghost qs = views(queries@);
        let mut kept: Vec<Query> = Vec::new();
        let mut saw_all = false;
        assert(views(kept@) =~= and_flatten(strip_match_all(qs.take(0))));
        for query in it: queries
            invariant
                it.seq() == queries@,
                qs == views(queries@),
                !has_match_none(qs.take(it.index() as int)),
                saw_all == has_match_all(qs.take(it.index() as int)),
                views(kept@) == and_flatten(strip_match_all(qs.take(it.index() as int))),
        {
            let ghost i = it.index() as int;
            let ghost before = kept@;
            proof {
                let next = qs.take(i + 1);
                let prev = qs.take(i);
                assert(next.drop_last() =~= prev);
                assert(next.last() == query@);
                let stripped = strip_match_all(prev);
                assert(stripped.push(query@).drop_last() =~= stripped);
                if has_match_all(prev) {
                    let k = choose|k: int| 0 <= k < prev.len() && prev[k] is MatchAll;
                    assert(next[k] is MatchAll);
                }
                if has_match_all(next) && !(query@ is MatchAll) {
                    let k = choose|k: int| 0 <= k < next.len() && next[k] is MatchAll;
                    assert(prev[k] is MatchAll);
                }
                if has_match_none(next) && !(query@ is MatchNone) {
                    let k = choose|k: int| 0 <= k < next.len() && next[k] is MatchNone;
                    assert(prev[k] is MatchNone);
                }
            }
            match query {
                Query::MatchNone => {
                    assert(qs[i] is MatchNone);
                    return Query::MatchNone;
                },
                Query::MatchAll => {
                    assert(qs.take(i + 1)[i] is MatchAll);
                    saw_all = true;
                },
                Query::And(inner) => {
                    let mut inner = inner;
                    proof {
                        lemma_view_and(inner);
                    }
                    let ghost moved = inner@;
                    kept.append(&mut inner);
                    assert(views(kept@) =~= views(before) + views(moved));
                },
                other => {
                    kept.push(other);
                    assert(views(kept@) =~= views(before) + seq![query@]);
                },
            }
        }
        assert(qs.take(qs.len() as int) =~= qs);
        if kept.len() == 0 {
            if saw_all {
                Query::MatchAll
            } else {
                Query::MatchNone
            }
        } else if kept.len() == 1 {
            let only = kept.pop().unwrap();
            only
        } else {
            proof {
                lemma_view_and(kept);
            }
            Query::And(kept)
        }
    }

    /// Whether the query is `MatchAll`.
    pub fn is_match_all(&self) -> (b: bool)
        ensures
            b == (self@ is MatchAll),
    {
        match self {
            Query::MatchAll => true,
            _ => false,
        }
    }

    /// Whether the query is `MatchNone`.
    pub fn is_match_none(&self) -> (b: bool)
        ensures
            b == (self@ is MatchNone),
    {
        match self {
            Query::MatchNone => true,
            _ => false,
        }
    }

    /// Every live document that `query` does not match.
    pub fn not(query: Query) -> (r: Query)
        ensures
            r@ == not_spec(query@),
    {
        Query::exclude(Query::MatchAll, query)
    }

    /// `query`, narrowed to what `filter` matches, simplified.
    pub fn filter(query: Query, filter: Query) -> (r: Query)
        ensures
            r@ == filter_spec(query@, filter@),
        decreases filter,
    {
        if query.is_match_none() {
            return Query::MatchNone;
        }
        match filter {
            Query::MatchAll => query,
            Query::MatchNone => Query::MatchNone,
            Query::Filter(a, inner) => {
                if a.is_match_all() {
                    Query::filter(query, *inner)
                } else {
                    Query::Filter(Box::new(query), Box::new(Query::Filter(a, inner)))
                }
            },
            Query::Exclude(a, inner) => {
                if a.is_match_all() {
                    Query::exclude(query, *inner)
                } else {
                    Query::Filter(Box::new(query), Box::new(Query::Exclude(a, inner)))
                }
            },
            other => Query::Filter(Box::new(query), Box::new(other)),
        }
    }

    /// `query`, without what `filter` matches, simplified.
    pub fn exclude(query: Query, filter: Query) -> (r: Query)
        ensures
            r@ == exclude_spec(query@, filter@),
        decreases filter,
    {
        if query.is_match_none() {
            return Query::MatchNone;
        }
        match filter {
            Query::MatchAll => Query::MatchNone,
            Query::MatchNone => query,
            Query::Filter(a, inner) => {
                if a.is_match_all() {
                    Query::exclude(query, *inner)
                } else {
                    Query::Exclude(Box::new(query), Box::new(Query::Filter(a, inner)))
                }
            },
            Query::Exclude(a, inner) => {
                if a.is_match_all() {
                    Query::filter(query, *inner)
                } else {
                    Query::Exclude(Box::new(query), Box::new(Query::Exclude(a, inner)))
                }
            },
            other => Query::Exclude(Box::new(query), Box::new(other)),
        }
    }

    /// `query` with its scores multiplied by the single-precision value whose
    /// bit pattern is `factor`. The factor is kept as given.
    pub fn boost(query: Query, factor: u32) -> (r: Query)
        ensures
            r@ == QueryView::Boost(Box::new(query@), factor),
    {
        Query::Boost(Box::new(query), factor)
    }

    /// The query rebuilt with the simplifying constructors, from the leaves
    /// up.
    pub fn simplify(self) -> (r: Query)
        ensures
            r@ == simplified(self@),
        decreases self,
    {
        match self {
            Query::Or(children) => {
                proof {
                    lemma_view_or(children);
                }
                let each = Query::simplify_each(children, Ghost(self));
                Query::or(each)
            },
            Query::And(children) => {
                proof {
                    lemma_view_and(children);
                }
                let each = Query::simplify_each(children, Ghost(self));
                Query::and(each)
            },
            Query::Filter(query, filter) => {
                let inner = query.simplify();
                let narrow = filter.simplify();
                Query::filter(inner, narrow)
            },
            Query::Exclude(query, filter) => {
                let inner = query.simplify();
                let narrow = filter.simplify();
                Query::exclude(inner, narrow)
            },
            Query::Boost(query, factor) => {
                let inner = query.simplify();
                Query::boost(inner, factor)
            },
            other => other,
        }
    }

    /// The children of `parent`, each rebuilt.
    fn simplify_each(children: Vec<Query>, Ghost(parent): Ghost<Query>) -> (each: Vec<Query>)
        requires
            forall|i: int| 0 <= i < children.len() ==> decreases_to!(parent => children[i]),
        ensures
            views(each@) == simplified_each(views(children@)),
        decreases parent, 0nat,
    {
        let mut each: Vec<Query> = Vec::new();
        let ghost all = children@;
        for child in it: children
            invariant
                it.seq() == all,
                each@.len() == it.index(),
                forall|i: int| 0 <= i < all.len() ==> decreases_to!(parent => all[i]),
                forall|k: int| 0 <= k < each@.len() ==> (#[trigger] each@[k])@ == simplified(all[k]@),
        {
            assert(decreases_to!(parent => all[it.index() as int]));
            let rebuilt = child.simplify();
            each.push(rebuilt);
        }
        assert(views(each@) =~= simplified_each(views(all)));
        each
    }
}

} // verus!
