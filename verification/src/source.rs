//! Queries and documents as a client names them, by the names of fields and
//! terms, and their resolution against the dictionaries.

use vstd::prelude::*;
use crate::data_dictionary::DataDictionary;
use crate::ids::{FieldId, TermId};
use crate::query::{and_spec, exclude_spec, filter_spec, or_spec, views, Query, QueryView};
use crate::term_dictionary::TermDictionary;

verus! {

/// A query that names its fields and terms.
#[derive(Debug)]
pub enum QuerySource {
    MatchAll,
    MatchNone,
    Term { field: String, term: String },
    Phrase { field: String, terms: Vec<String> },
    Or(Vec<QuerySource>),
    And(Vec<QuerySource>),
    Filter { query: Box<QuerySource>, filter: Box<QuerySource> },
    Exclude { query: Box<QuerySource>, filter: Box<QuerySource> },
    /// The factor is the bit pattern of a single-precision value.
    Boost { query: Box<QuerySource>, boost: u32 },
}

/// The mathematical value of a [`QuerySource`].
pub ghost enum QuerySourceView {
    MatchAll,
    MatchNone,
    Term(Seq<char>, Seq<char>),
    Phrase(Seq<char>, Seq<Seq<char>>),
    Or(Seq<QuerySourceView>),
    And(Seq<QuerySourceView>),
    Filter(Box<QuerySourceView>, Box<QuerySourceView>),
    Exclude(Box<QuerySourceView>, Box<QuerySourceView>),
    Boost(Box<QuerySourceView>, u32),
}

/// The names as sequences of characters, one for one.
pub open spec fn names_of(names: Seq<String>) -> Seq<Seq<char>> {
    Seq::new(names.len(), |i: int| names[i]@)
}

/// The values of a sequence of named queries, one for one.
pub open spec fn source_views(qs: Seq<QuerySource>) -> Seq<QuerySourceView> {
    Seq::new(qs.len(), |i: int| qs[i]@)
}

impl QuerySource {
    /// The mathematical value of the named query.
    pub open spec fn model(&self) -> QuerySourceView
        decreases self,
    {
        match self {
            QuerySource::MatchAll => QuerySourceView::MatchAll,
            QuerySource::MatchNone => QuerySourceView::MatchNone,
            QuerySource::Term { field, term } => QuerySourceView::Term(field@, term@),
            QuerySource::Phrase { field, terms } => QuerySourceView::Phrase(
                field@,
                names_of(terms@),
            ),
            QuerySource::Or(cs) => QuerySourceView::Or(
                Seq::new(
                    cs.len() as nat,
                    |i: int|
                        if 0 <= i < cs.len() {
                            cs[i].model()
                        } else {
                            QuerySourceView::MatchNone
                        },
                ),
            ),
            QuerySource::And(cs) => QuerySourceView::And(
                Seq::new(
                    cs.len() as nat,
                    |i: int|
                        if 0 <= i < cs.len() {
                            cs[i].model()
                        } else {
                            QuerySourceView::MatchNone
                        },
                ),
            ),
            QuerySource::Filter { query, filter } => QuerySourceView::Filter(
                Box::new(query.model()),
                Box::new(filter.model()),
            ),
            QuerySource::Exclude { query, filter } => QuerySourceView::Exclude(
                Box::new(query.model()),
                Box::new(filter.model()),
            ),
            QuerySource::Boost { query, boost } => QuerySourceView::Boost(
                Box::new(query.model()),
                *boost,
            ),
        }
    }
}

impl View for QuerySource {
    type V = QuerySourceView;

    open spec fn view(&self) -> QuerySourceView {
        self.model()
    }
}

/// Whether every name is a term of the dictionary.
pub open spec fn all_known(terms: Map<Seq<char>, TermId>, names: Seq<Seq<char>>) -> bool {
    forall|i: int| 0 <= i < names.len() ==> terms.contains_key(#[trigger] names[i])
}

/// The identifiers of the names, one for one.
pub open spec fn ids_of(terms: Map<Seq<char>, TermId>, names: Seq<Seq<char>>) -> Seq<TermId> {
    Seq::new(names.len(), |i: int| terms[names[i]])
}

/// The query that a named query resolves to.
///
/// A term or phrase whose field or one of whose terms is unknown becomes
/// `MatchNone`. The rest is built with the simplifying constructors, from
/// the leaves up.
pub open spec fn resolved(
    source: QuerySourceView,
    terms: Map<Seq<char>, TermId>,
    fields: Map<Seq<char>, FieldId>,
) -> QueryView
    decreases source, 0nat,
{
    match source {
        QuerySourceView::MatchAll => QueryView::MatchAll,
        QuerySourceView::MatchNone => QueryView::MatchNone,
        QuerySourceView::Term(field, term) => if fields.contains_key(field) && terms.contains_key(
            term,
        ) {
            QueryView::Term(fields[field], terms[term])
        } else {
            QueryView::MatchNone
        },
        QuerySourceView::Phrase(field, names) => if fields.contains_key(field) && all_known(
            terms,
            names,
        ) {
            QueryView::Phrase(fields[field], ids_of(terms, names))
        } else {
            QueryView::MatchNone
        },
        QuerySourceView::Or(cs) => or_spec(resolved_each(cs, terms, fields)),
        QuerySourceView::And(cs) => and_spec(resolved_each(cs, terms, fields)),
        QuerySourceView::Filter(query, filter) => filter_spec(
            resolved(*query, terms, fields),
            resolved(*filter, terms, fields),
        ),
        QuerySourceView::Exclude(query, filter) => exclude_spec(
            resolved(*query, terms, fields),
            resolved(*filter, terms, fields),
        ),
        QuerySourceView::Boost(query, boost) => QueryView::Boost(
            Box::new(resolved(*query, terms, fields)),
            boost,
        ),
    }
}

/// The queries that named queries resolve to, one for one.
pub open spec fn resolved_each(
    sources: Seq<QuerySourceView>,
    terms: Map<Seq<char>, TermId>,
    fields: Map<Seq<char>, FieldId>,
) -> Seq<QueryView>
    decreases sources, 1nat,
{
    Seq::new(
        sources.len(),
        |i: int|
            if 0 <= i < sources.len() {
                resolved(sources[i], terms, fields)
            } else {
                QueryView::MatchNone
            },
    )
}

/// The identifiers of the terms, if the dictionary knows each of them.
pub fn lookup_terms(names: &Vec<String>, term_dict: &TermDictionary) -> (r: Option<Vec<TermId>>)
    ensures
        match r {
            Some(ids) => all_known(term_dict.terms@, names_of(names@)) && ids@ == ids_of(
                term_dict.terms@,
                names_of(names@),
            ),
            None => !all_known(term_dict.terms@, names_of(names@)),
        },
{
    let mut ids: Vec<TermId> = Vec::new();
    let ghost all = names_of(names@);
    let mut i: usize = 0;
    while i < names.len()
        invariant
            i <= names.len(),
            all == names_of(names@),
            ids@.len() == i,
            forall|k: int|
                0 <= k < i ==> term_dict.terms@.contains_key(#[trigger] all[k]) && ids@[k]
                    == term_dict.terms@[all[k]],
        decreases names.len() - i,
    {
        match term_dict.lookup_by_name(names[i].as_str()) {
            Some(id) => {
                assert(all[i as int] == names@[i as int]@);
                ids.push(id);
            },
            None => {
                assert(all[i as int] == names@[i as int]@);
                return None;
            },
        }
        i += 1;
    }
    assert(ids@ =~= ids_of(term_dict.terms@, all));
    Some(ids)
}

impl QuerySource {
    /// The query that this named query resolves to.
    pub fn as_query(&self, term_dict: &TermDictionary, data_dict: &DataDictionary) -> (r: Query)
        ensures
            r@ == resolved(self@, term_dict.terms@, data_dict.field_names@),
        decreases self,
    {
        match self {
            QuerySource::MatchAll => Query::match_all(),
            QuerySource::MatchNone => Query::match_none(),
            QuerySource::Term { field, term } => {
                match data_dict.field_names.get(field.as_str()) {
                    Some(field_id) => match term_dict.lookup_by_name(term.as_str()) {
                        Some(term_id) => Query::term(*field_id, term_id),
                        None => Query::match_none(),
                    },
                    None => Query::match_none(),
                }
            },
            QuerySource::Phrase { field, terms } => {
                match data_dict.field_names.get(field.as_str()) {
                    Some(field_id) => match lookup_terms(terms, term_dict) {
                        Some(term_ids) => Query::phrase(*field_id, term_ids),
                        None => Query::match_none(),
                    },
                    None => Query::match_none(),
                }
            },
            QuerySource::Or(queries) => {
                let children = self.resolve_each(queries, term_dict, data_dict);
                proof {
                    let models = self@->Or_0;
                    assert(models.len() == queries@.len());
                    assert forall|i: int| 0 <= i < models.len() implies models[i]
                        == queries@[i].model() by {}
                    assert(views(children@) =~= resolved_each(
                        models,
                        term_dict.terms@,
                        data_dict.field_names@,
                    ));
                }
                Query::or(children)
            },
            QuerySource::And(queries) => {
                let children = self.resolve_each(queries, term_dict, data_dict);
                proof {
                    let models = self@->And_0;
                    assert(models.len() == queries@.len());
                    assert forall|i: int| 0 <= i < models.len() implies models[i]
                        == queries@[i].model() by {}
                    assert(views(children@) =~= resolved_each(
                        models,
                        term_dict.terms@,
                        data_dict.field_names@,
                    ));
                }
                Query::and(children)
            },
            QuerySource::Filter { query, filter } => {
                let inner = query.as_query(term_dict, data_dict);
                let narrow = filter.as_query(term_dict, data_dict);
                let r = Query::filter(inner, narrow);
                assert(r@ == resolved(self@, term_dict.terms@, data_dict.field_names@));
                r
            },
            QuerySource::Exclude { query, filter } => {
                let inner = query.as_query(term_dict, data_dict);
                let narrow = filter.as_query(term_dict, data_dict);
                let r = Query::exclude(inner, narrow);
                assert(r@ == resolved(self@, term_dict.terms@, data_dict.field_names@));
                r
            },
            QuerySource::Boost { query, boost } => {
                let inner = query.as_query(term_dict, data_dict);
                let r = Query::boost(inner, *boost);
                assert(r@ == resolved(self@, term_dict.terms@, data_dict.field_names@));
                r
            },
        }
    }

    /// The queries that the children of this named query resolve to.
    fn resolve_each(
        &self,
        queries: &Vec<QuerySource>,
        term_dict: &TermDictionary,
        data_dict: &DataDictionary,
    ) -> (children: Vec<Query>)
        requires
            forall|i: int| 0 <= i < queries.len() ==> decreases_to!(self => queries[i]),
        ensures
            views(children@) == Seq::new(
                queries@.len(),
                |i: int|
                    if 0 <= i < queries@.len() {
                        resolved(queries@[i].model(), term_dict.terms@, data_dict.field_names@)
                    } else {
                        QueryView::MatchNone
                    },
            ),
        decreases self, 0nat,
    {
        let mut children: Vec<Query> = Vec::new();
        let mut i: usize = 0;
        while i < queries.len()
            invariant
                i <= queries.len(),
                children@.len() == i,
                forall|k: int|
                    0 <= k < i ==> (#[trigger] children@[k])@ == resolved(
                        queries@[k].model(),
                        term_dict.terms@,
                        data_dict.field_names@,
                    ),
                forall|k: int| 0 <= k < queries.len() ==> decreases_to!(self => queries[k]),
            decreases queries.len() - i,
        {
            let child = queries[i].as_query(term_dict, data_dict);
            children.push(child);
            i += 1;
        }
        assert(views(children@) =~= Seq::new(
            queries@.len(),
            |i: int|
                if 0 <= i < queries@.len() {
                    resolved(queries@[i].model(), term_dict.terms@, data_dict.field_names@)
                } else {
                    QueryView::MatchNone
                },
        ));
        children
    }
}

} // verus!
