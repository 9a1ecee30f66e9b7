use sparrow::ids::{FieldId, TermId};
use sparrow::query::Query;

#[test]
fn test_match_all() {
    assert_eq!(Query::match_all(), Query::MatchAll);
}

#[test]
fn test_match_none() {
    assert_eq!(Query::match_none(), Query::MatchNone);
}

#[test]
fn test_term() {
    assert_eq!(Query::term(FieldId(1), TermId(123)), Query::Term(FieldId(1), TermId(123)));
}

#[test]
fn test_phrase() {
    assert_eq!(Query::phrase(FieldId(1), vec![TermId(123), TermId(456), TermId(789)]), Query::Phrase(FieldId(1),  vec![TermId(123), TermId(456), TermId(789)]));
}

#[test]
fn test_or() {
    assert_eq!(
        Query::or(vec![Query::Term(FieldId(1), TermId(123)), Query::Term(FieldId(1), TermId(456))]),
        Query::Or(vec![Query::Term(FieldId(1), TermId(123)), Query::Term(FieldId(1), TermId(456))])
    );

    // Nested Or queries should be inlined
    assert_eq!(
        Query::or(vec![Query::Or(vec![Query::Term(FieldId(1), TermId(123)), Query::Term(FieldId(1), TermId(456))]), Query::Term(FieldId(1), TermId(789))]),
        Query::Or(vec![Query::Term(FieldId(1), TermId(123)), Query::Term(FieldId(1), TermId(456)), Query::Term(FieldId(1), TermId(789))])
    );

    // But not And queries
    assert_eq!(
        Query::or(vec![Query::And(vec![Query::Term(FieldId(1), TermId(123)), Query::Term(FieldId(1), TermId(456))]), Query::Term(FieldId(1), TermId(789))]),
        Query::Or(vec![Query::And(vec![Query::Term(FieldId(1), TermId(123)), Query::Term(FieldId(1), TermId(456))]), Query::Term(FieldId(1), TermId(789))])
    );

    // Single element queries should be unwrapped
    assert_eq!(
        Query::or(vec![Query::Term(FieldId(1), TermId(123))]),
        Query::Term(FieldId(1), TermId(123))
    );

    // MatchNone should be ignored
    assert_eq!(
        Query::or(vec![Query::Term(FieldId(1), TermId(123)), Query::MatchNone]),
        Query::Term(FieldId(1), TermId(123))
    );

    // Or query containing only MatchNone should be MatchNone
    assert_eq!(
        Query::or(vec![Query::MatchNone, Query::MatchNone]),
        Query::MatchNone
    );

    // MatchAll should be left in
    // This is so that the query still matches everything and the scoring for that term still applies
    assert_eq!(
        Query::or(vec![Query::Term(FieldId(1), TermId(123)), Query::MatchAll]),
        Query::Or(vec![Query::Term(FieldId(1), TermId(123)), Query::MatchAll]),
    );

    // Multiple MatchAll should be reduced to one
    assert_eq!(
        Query::or(vec![Query::Term(FieldId(1), TermId(123)), Query::MatchAll, Query::MatchAll]),
        Query::Or(vec![Query::Term(FieldId(1), TermId(123)), Query::MatchAll]),
    );

    // If all MatchAll, then the query should be MatchAll
    assert_eq!(
        Query::or(vec![Query::MatchAll, Query::MatchAll]),
        Query::MatchAll
    );
}

#[test]
fn test_and() {
    assert_eq!(
        Query::and(vec![Query::Term(FieldId(1), TermId(123)), Query::Term(FieldId(1), TermId(456))]),
        Query::And(vec![Query::Term(FieldId(1), TermId(123)), Query::Term(FieldId(1), TermId(456))])
    );

    // Nested And queries should be inlined
    assert_eq!(
        Query::and(vec![Query::And(vec![Query::Term(FieldId(1), TermId(123)), Query::Term(FieldId(1), TermId(456))]), Query::Term(FieldId(1), TermId(789))]),
        Query::And(vec![Query::Term(FieldId(1), TermId(123)), Query::Term(FieldId(1), TermId(456)), Query::Term(FieldId(1), TermId(789))])
    );

    // But not Or queries
    assert_eq!(
        Query::and(vec![Query::Or(vec![Query::Term(FieldId(1), TermId(123)), Query::Term(FieldId(1), TermId(456))]), Query::Term(FieldId(1), TermId(789))]),
        Query::And(vec![Query::Or(vec![Query::Term(FieldId(1), TermId(123)), Query::Term(FieldId(1), TermId(456))]), Query::Term(FieldId(1), TermId(789))])
    );

    // Single element queries should be unwrapped
    assert_eq!(
        Query::and(vec![Query::Term(FieldId(1), TermId(123))]),
        Query::Term(FieldId(1), TermId(123))
    );

    // If any MatchNone, the query should be MatchNone
    assert_eq!(
        Query::and(vec![Query::Term(FieldId(1), TermId(123)), Query::MatchNone]),
        Query::MatchNone
    );

    // MatchAll should be ignored
    assert_eq!(
        Query::and(vec![Query::Term(FieldId(1), TermId(123)), Query::MatchAll]),
        Query::Term(FieldId(1), TermId(123))
    );

    // If all MatchAll, then the query should be MatchAll
    assert_eq!(
        Query::and(vec![Query::MatchAll, Query::MatchAll]),
        Query::MatchAll
    );
}

#[test]
fn test_not() {
    assert_eq!(
        Query::not(Query::Term(FieldId(1), TermId(123))),
        Query::Exclude(Box::new(Query::MatchAll), Box::new(Query::Term(FieldId(1), TermId(123))))
    );

    assert_eq!(
        Query::not(Query::MatchAll),
        Query::MatchNone
    );

    assert_eq!(
        Query::not(Query::MatchNone),
        Query::MatchAll
    );

    assert_eq!(
        Query::not(Query::not(Query::Term(FieldId(1), TermId(123)))),
        Query::Filter(Box::new(Query::MatchAll), Box::new(Query::Term(FieldId(1), TermId(123))))
    );
}

#[test]
fn test_filter() {
    assert_eq!(
        Query::filter(Query::Term(FieldId(1), TermId(123)), Query::Term(FieldId(1), TermId(456))),
        Query::Filter(Box::new(Query::Term(FieldId(1), TermId(123))), Box::new(Query::Term(FieldId(1), TermId(456))))
    );

    assert_eq!(
        Query::filter(Query::MatchAll, Query::Term(FieldId(1), TermId(456))),
        Query::Filter(Box::new(Query::MatchAll), Box::new(Query::Term(FieldId(1), TermId(456))))
    );

    assert_eq!(
        Query::filter(Query::Term(FieldId(1), TermId(123)), Query::MatchAll),
        Query::Term(FieldId(1), TermId(123))
    );

    assert_eq!(
        Query::filter(Query::MatchNone, Query::MatchAll),
        Query::MatchNone
    );

    assert_eq!(
        Query::filter(Query::MatchAll, Query::MatchNone),
        Query::MatchNone
    );

    // When you nest two filters and the inner one has a query of MatchAll, we can simplify this
    assert_eq!(
        Query::filter(
            Query::Term(FieldId(1), TermId(123)),
            Query::Filter(
                Box::new(Query::MatchAll),
                Box::new(Query::Term(FieldId(1), TermId(456)))
            )
        ),
        Query::Filter(
            Box::new(Query::Term(FieldId(1), TermId(123))),
            Box::new(Query::Term(FieldId(1), TermId(456)))
        )
    );

    // But not when the inner filter's query isn't MatchAll
    assert_eq!(
        Query::filter(
            Query::Term(FieldId(1), TermId(123)),
            Query::Filter(
                Box::new(Query::Term(FieldId(1), TermId(456))),
                Box::new(Query::Term(FieldId(1), TermId(789)))
            )
        ),
        Query::Filter(
            Box::new(Query::Term(FieldId(1), TermId(123))),
            Box::new(Query::Filter(
                Box::new(Query::Term(FieldId(1), TermId(456))),
                Box::new(Query::Term(FieldId(1), TermId(789)))
            ))
        )
    );

    // We can also simplify when a filter is filtered by an exclude who's query is MatchAll
    assert_eq!(
        Query::filter(
            Query::Term(FieldId(1), TermId(123)),
            Query::Exclude(
                Box::new(Query::MatchAll),
                Box::new(Query::Term(FieldId(1), TermId(456)))
            )
        ),
        Query::Exclude(
            Box::new(Query::Term(FieldId(1), TermId(123))),
            Box::new(Query::Term(FieldId(1), TermId(456))),
        )
    );
}

#[test]
fn test_exclude() {
    assert_eq!(
        Query::exclude(Query::Term(FieldId(1), TermId(123)), Query::Term(FieldId(1), TermId(456))),
        Query::Exclude(Box::new(Query::Term(FieldId(1), TermId(123))), Box::new(Query::Term(FieldId(1), TermId(456))))
    );

    assert_eq!(
        Query::exclude(Query::MatchAll, Query::Term(FieldId(1), TermId(456))),
        Query::Exclude(Box::new(Query::MatchAll), Box::new(Query::Term(FieldId(1), TermId(456))))
    );

    assert_eq!(
        Query::exclude(Query::Term(FieldId(1), TermId(123)), Query::MatchNone),
        Query::Term(FieldId(1), TermId(123))
    );

    assert_eq!(
        Query::exclude(Query::MatchNone, Query::MatchAll),
        Query::MatchNone
    );

    assert_eq!(
        Query::exclude(Query::MatchAll, Query::MatchNone),
        Query::MatchAll
    );

    // When you nest two excludes and the inner one has a query of MatchAll, we can simplify this
    assert_eq!(
        Query::exclude(
            Query::Term(FieldId(1), TermId(123)),
            Query::Exclude(
                Box::new(Query::MatchAll),
                Box::new(Query::Term(FieldId(1), TermId(456)))
            )
        ),
        Query::Filter(
            Box::new(Query::Term(FieldId(1), TermId(123))),
            Box::new(Query::Term(FieldId(1), TermId(456)))
        )
    );

    // But not when the inner exclude's query isn't MatchAll
    assert_eq!(
        Query::exclude(
            Query::Term(FieldId(1), TermId(123)),
            Query::Filter(
                Box::new(Query::Term(FieldId(1), TermId(456))),
                Box::new(Query::Term(FieldId(1), TermId(789)))
            )
        ),
        Query::Exclude(
            Box::new(Query::Term(FieldId(1), TermId(123))),
            Box::new(Query::Filter(
                Box::new(Query::Term(FieldId(1), TermId(456))),
                Box::new(Query::Term(FieldId(1), TermId(789)))
            ))
        )
    );

    // We can also simplify when an exclude is filtered by a filter who's query is MatchAll
    assert_eq!(
        Query::exclude(
            Query::Term(FieldId(1), TermId(123)),
            Query::Filter(
                Box::new(Query::MatchAll),
                Box::new(Query::Term(FieldId(1), TermId(456)))
            )
        ),
        Query::Exclude(
            Box::new(Query::Term(FieldId(1), TermId(123))),
            Box::new(Query::Term(FieldId(1), TermId(456))),
        )
    );
}

#[test]
fn test_boost() {
    assert_eq!(Query::boost(Query::Term(FieldId(1), TermId(123)), 2.0f32.to_bits()), Query::Boost(Box::new(Query::Term(FieldId(1), TermId(123))), 2.0f32.to_bits()));
}

#[test]
fn fixed_routes_greet() {
    assert_eq!(sparrow::service::index(), "Hello, world!");
    assert_eq!(sparrow::service::reset(), "Hello, world!");
}

#[test]
fn simplify_rebuilds_from_the_leaves() {
    let a = Query::Term(FieldId(1), TermId(1));
    let b = Query::Term(FieldId(1), TermId(2));
    let raw = Query::And(vec![
        Query::Or(vec![Query::Or(vec![Query::Term(FieldId(1), TermId(1)), Query::MatchAll]), Query::Term(FieldId(1), TermId(2))]),
        Query::MatchAll,
        Query::Filter(Box::new(Query::Or(vec![Query::Term(FieldId(1), TermId(1))])), Box::new(Query::MatchAll)),
        Query::Exclude(
            Box::new(Query::Term(FieldId(1), TermId(2))),
            Box::new(Query::Exclude(Box::new(Query::MatchAll), Box::new(Query::Term(FieldId(1), TermId(3))))),
        ),
    ]);
    let once = raw.simplify();
    assert_eq!(
        once,
        Query::And(vec![
            Query::Or(vec![
                Query::Term(FieldId(1), TermId(1)),
                Query::Term(FieldId(1), TermId(2)),
                Query::MatchAll,
            ]),
            Query::Term(FieldId(1), TermId(1)),
            Query::Filter(
                Box::new(Query::Term(FieldId(1), TermId(2))),
                Box::new(Query::Term(FieldId(1), TermId(3))),
            ),
        ])
    );
    let again = Query::And(vec![
        Query::Or(vec![
            Query::Term(FieldId(1), TermId(1)),
            Query::Term(FieldId(1), TermId(2)),
            Query::MatchAll,
        ]),
        Query::Term(FieldId(1), TermId(1)),
        Query::Filter(
            Box::new(Query::Term(FieldId(1), TermId(2))),
            Box::new(Query::Term(FieldId(1), TermId(3))),
        ),
    ])
    .simplify();
    assert_eq!(again, once);
    assert_eq!(Query::Or(vec![]).simplify(), Query::MatchNone);
    assert_eq!(Query::And(vec![Query::MatchAll]).simplify(), Query::MatchAll);
    assert_eq!(
        Query::Exclude(
            Box::new(Query::MatchAll),
            Box::new(Query::Exclude(Box::new(Query::MatchAll), Box::new(Query::And(vec![])))),
        )
        .simplify(),
        Query::MatchNone
    );
    assert_eq!(Query::Boost(Box::new(Query::Or(vec![a])), 5).simplify(), Query::Boost(Box::new(Query::Term(FieldId(1), TermId(1))), 5));
    assert_eq!(b.simplify(), Query::Term(FieldId(1), TermId(2)));
}
