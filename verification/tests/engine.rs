use sparrow::data_dictionary::{DataDictionary, FieldConfig};
use sparrow::database::{Database, Document, InsertError};
use sparrow::ids::{DocumentId, FieldId, TermId};
use sparrow::index::{advance, find_posting, InvertedIndex};
use sparrow::ingest::{apply_copies, index_fields, DocumentSource, FieldSource};
use sparrow::query::Query;
use sparrow::scalar::{is_zero_bits, Scalar, ONE_BITS, ZERO_BITS};
use sparrow::source::QuerySource;
use sparrow::table::{IdSet, IdTable, PositionSet};
use sparrow::term_dictionary::TermDictionary;
use sparrow::tsvector::{TSVector, Token};

fn eval(scalar: &Scalar) -> f32 {
    match scalar {
        Scalar::Bits(bits) => f32::from_bits(*bits),
        Scalar::Count(n) => *n as f32,
        Scalar::Add(a, b) => eval(a) + eval(b),
        Scalar::Mul(a, b) => eval(a) * eval(b),
        Scalar::Div(a, b) => eval(a) / eval(b),
        Scalar::Log2(a) => eval(a).log2(),
    }
}

fn tokenize_string(string: &str) -> Vec<Token> {
    let mut current_position = 0;
    string
        .split_whitespace()
        .map(|string| {
            current_position += 1;
            Token {
                term: string.trim_matches(|c: char| !c.is_alphanumeric()).to_lowercase(),
                weight: 1.0f32.to_bits(),
                position: current_position,
            }
        })
        .filter(|token| token.term.len() < 100)
        .collect()
}

fn field(name: &str, text: &str) -> FieldSource {
    FieldSource { name: name.to_owned(), tokens: tokenize_string(text) }
}

fn insert(db: &mut Database, pk: &str, fields: Vec<FieldSource>) -> DocumentId {
    let source = DocumentSource { pk: pk.to_owned(), fields };
    let doc = source.as_document(&mut db.term_dictionary, &db.data_dictionary);
    db.insert_document(source.pk.clone(), doc).unwrap()
}

fn term(db: &Database, field: &str, term: &str) -> Query {
    QuerySource::Term { field: field.to_owned(), term: term.to_owned() }
        .as_query(&db.term_dictionary, &db.data_dictionary)
}

fn phrase(db: &Database, field: &str, terms: &[&str]) -> Query {
    QuerySource::Phrase {
        field: field.to_owned(),
        terms: terms.iter().map(|t| t.to_string()).collect(),
    }
    .as_query(&db.term_dictionary, &db.data_dictionary)
}

fn scores(db: &Database, query: &Query) -> Vec<(DocumentId, f32)> {
    let mut hits: Vec<(DocumentId, f32)> =
        db.query(query).iter().map(|(doc, score)| (*doc, eval(score))).collect();
    hits.sort_by_key(|hit| (hit.0).0);
    hits
}

fn docs(db: &Database, query: &Query) -> Vec<DocumentId> {
    let mut found = db.simple_match(query);
    found.sort_by_key(|doc| doc.0);
    found
}

fn titled() -> Database {
    let mut db = Database::new();
    db.data_dictionary.insert("title".to_owned(), FieldConfig::default());
    db
}

#[test]
fn it_works() {
    let mut db = Database::default();
    db.data_dictionary.insert("title".to_owned(), FieldConfig::default());
    let fields = vec![field("title", "hello world this is a test hello")];
    let source = DocumentSource { pk: "first".to_owned(), fields };
    let doc = source.as_document(&mut db.term_dictionary, &db.data_dictionary);
    db.insert_document(source.pk.clone(), doc).unwrap();
}

#[test]
fn basic_term_scoring() {
    let mut db = titled();
    let a = insert(&mut db, "a", vec![field("title", "hello world")]);
    assert_eq!(scores(&db, &term(&db, "title", "hello")), vec![(a, 1.0)]);
    assert_eq!(term(&db, "title", "goodbye"), Query::MatchNone);
    assert_eq!(scores(&db, &term(&db, "title", "goodbye")), vec![]);
    assert_eq!(docs(&db, &term(&db, "title", "hello")), vec![a]);
}

#[test]
fn term_score_is_weight_times_normalizer() {
    let mut db = titled();
    let a = insert(&mut db, "a", vec![field("title", "hello hello world again")]);
    let b = insert(&mut db, "b", vec![field("title", "hello")]);
    // a: weight 2/4, b: weight 1/1; two documents hold the term; five tokens in two documents.
    let normalizer = (1.0f32 / 3.0f32.log2()) * (1.0 / (2.0f32 / 5.0));
    assert_eq!(
        scores(&db, &term(&db, "title", "hello")),
        vec![(a, 0.5 * normalizer), (b, 1.0 * normalizer)]
    );
    let hello = db.term_dictionary.lookup_by_name("hello").unwrap();
    let slot = db.fields.find(0).unwrap();
    let index = db.fields.value(slot);
    assert_eq!(eval(&index.calculate_normalizer(hello)), normalizer);
    assert_eq!(index.term_document_frequency(hello), 2);
    assert_eq!(index.term_total_frequency(hello), Some(3));
    assert_eq!(index.total_documents, 2);
    assert_eq!(index.total_terms, 5);
    assert_eq!(index.docs_with_term(hello), vec![a, b]);
    assert_eq!(index.term_document_frequency(TermId(99)), 0);
    assert_eq!(index.term_total_frequency(TermId(99)), Some(0));
    assert_eq!(index.docs_with_term(TermId(99)), vec![]);
}

#[test]
fn phrase_adjacency() {
    let mut db = titled();
    let a = insert(&mut db, "a", vec![field("title", "quick brown fox")]);
    assert_eq!(docs(&db, &phrase(&db, "title", &["quick", "brown"])), vec![a]);
    assert_eq!(docs(&db, &phrase(&db, "title", &["quick", "fox"])), vec![]);
    assert_eq!(docs(&db, &phrase(&db, "title", &["brown", "fox"])), vec![a]);
    assert_eq!(docs(&db, &phrase(&db, "title", &["quick", "brown", "fox"])), vec![a]);
    assert_eq!(docs(&db, &phrase(&db, "title", &["fox", "brown"])), vec![]);
    assert_eq!(docs(&db, &phrase(&db, "title", &[])), vec![]);
    assert_eq!(phrase(&db, "title", &["quick", "cat"]), Query::MatchNone);
    assert_eq!(phrase(&db, "body", &["quick", "brown"]), Query::MatchNone);
}

#[test]
fn phrase_score_adds_the_terms() {
    let mut db = titled();
    let a = insert(&mut db, "a", vec![field("title", "quick brown fox")]);
    let b = insert(&mut db, "b", vec![field("title", "brown quick")]);
    let quick = scores(&db, &term(&db, "title", "quick"));
    let brown = scores(&db, &term(&db, "title", "brown"));
    let both = scores(&db, &phrase(&db, "title", &["quick", "brown"]));
    assert_eq!(both, vec![(a, quick[0].1 + brown[0].1)]);
    assert_eq!(quick.len(), 2);
    assert_eq!(quick[1].0, b);
}

#[test]
fn phrase_needs_every_occurrence_in_one_document() {
    let mut db = titled();
    let a = insert(&mut db, "a", vec![field("title", "red green red blue")]);
    let _b = insert(&mut db, "b", vec![field("title", "red")]);
    let _c = insert(&mut db, "c", vec![field("title", "blue red")]);
    assert_eq!(docs(&db, &phrase(&db, "title", &["red", "blue"])), vec![a]);
    assert_eq!(docs(&db, &phrase(&db, "title", &["green", "red", "blue"])), vec![a]);
    assert_eq!(docs(&db, &phrase(&db, "title", &["red", "green", "blue"])), vec![]);
}

#[test]
fn copy_to_appends_the_normalized_source() {
    let mut db = Database::new();
    let all_text = db.data_dictionary.insert("all_text".to_owned(), FieldConfig::default());
    let title = db.data_dictionary.insert(
        "title".to_owned(),
        FieldConfig::default().boost(2.0f32.to_bits()).copy_to(all_text),
    );
    let a = insert(&mut db, "a", vec![field("title", "karl hobley")]);
    assert_eq!(scores(&db, &term(&db, "all_text", "karl")), vec![(a, 2.0)]);
    assert_eq!(scores(&db, &term(&db, "title", "karl")), vec![(a, 2.0)]);
    let karl = db.term_dictionary.lookup_by_name("karl").unwrap();
    let slot = db.fields.find(all_text.0).unwrap();
    let index = db.fields.value(slot);
    let list = index.postings.value(index.postings.find(karl.0).unwrap());
    assert_eq!(list.len(), 1);
    assert_eq!(list[0].doc, a);
    assert!(list[0].positions.contains(1));
    assert_eq!(list[0].positions.len(), 1);
    assert_eq!(index.total_terms, 2);
    assert_eq!(title, FieldId(1));
}

#[test]
fn copy_to_shifts_behind_direct_content() {
    let mut db = Database::new();
    let all_text = db.data_dictionary.insert("all_text".to_owned(), FieldConfig::default());
    db.data_dictionary
        .insert("title".to_owned(), FieldConfig::default().copy_to(all_text));
    let a = insert(
        &mut db,
        "a",
        vec![field("all_text", "some direct words"), field("title", "karl hobley")],
    );
    // The copied positions follow the three direct tokens.
    assert_eq!(docs(&db, &phrase(&db, "all_text", &["karl", "hobley"])), vec![a]);
    assert_eq!(docs(&db, &phrase(&db, "all_text", &["words", "karl"])), vec![a]);
    let karl = db.term_dictionary.lookup_by_name("karl").unwrap();
    let slot = db.fields.find(all_text.0).unwrap();
    let index = db.fields.value(slot);
    let list = index.postings.value(index.postings.find(karl.0).unwrap());
    assert!(list[0].positions.contains(4));
    assert!(!list[0].positions.contains(1));
    assert_eq!(index.total_terms, 5);
    // direct weight 1/3 per token, copied weight 1/2 per token
    let words = scores(&db, &term(&db, "all_text", "words"));
    let copied = scores(&db, &term(&db, "all_text", "karl"));
    assert_eq!(words, vec![(a, (1.0f32 / 3.0) * 5.0)]);
    assert_eq!(copied, vec![(a, 0.5 * 5.0)]);
}

#[test]
fn boolean_scoring() {
    let mut db = titled();
    let a = insert(&mut db, "a", vec![field("title", "karl hobley")]);
    let b = insert(&mut db, "b", vec![field("title", "karl smith")]);
    let karl = scores(&db, &term(&db, "title", "karl"));
    let hobley = scores(&db, &term(&db, "title", "hobley"));
    let and = Query::and(vec![term(&db, "title", "karl"), term(&db, "title", "hobley")]);
    assert_eq!(scores(&db, &and), vec![(a, 0.0 + karl[0].1 + hobley[0].1)]);
    assert_eq!(docs(&db, &and), vec![a]);
    let or = Query::or(vec![term(&db, "title", "karl"), term(&db, "title", "hobley")]);
    assert_eq!(
        scores(&db, &or),
        vec![(a, 0.0 + karl[0].1 + hobley[0].1), (b, 0.0 + karl[1].1)]
    );
    assert_eq!(docs(&db, &or), vec![a, b]);
    assert_eq!(scores(&db, &Query::And(vec![])), vec![]);
    assert_eq!(docs(&db, &Query::And(vec![])), vec![]);
    assert_eq!(docs(&db, &Query::Or(vec![])), vec![]);
}

#[test]
fn filter_and_exclude() {
    let mut db = Database::new();
    db.data_dictionary.insert("type".to_owned(), FieldConfig::default());
    db.data_dictionary.insert("archived".to_owned(), FieldConfig::default());
    let a = insert(&mut db, "a", vec![field("type", "article")]);
    let b = insert(&mut db, "b", vec![field("type", "article"), field("archived", "true")]);
    let c = insert(&mut db, "c", vec![field("type", "article")]);
    let left = scores(&db, &term(&db, "type", "article"));
    let filter = Query::filter(term(&db, "type", "article"), term(&db, "archived", "true"));
    assert_eq!(scores(&db, &filter), vec![left[1]]);
    assert_eq!(docs(&db, &filter), vec![b]);
    let exclude = Query::exclude(term(&db, "type", "article"), term(&db, "archived", "true"));
    assert_eq!(scores(&db, &exclude), vec![left[0], left[2]]);
    assert_eq!(docs(&db, &exclude), vec![a, c]);
}

#[test]
fn match_all_scores_zero_and_boost_multiplies() {
    let mut db = titled();
    let a = insert(&mut db, "a", vec![field("title", "hello world")]);
    let b = insert(&mut db, "b", vec![field("title", "other")]);
    assert_eq!(scores(&db, &Query::MatchAll), vec![(a, 0.0), (b, 0.0)]);
    assert_eq!(docs(&db, &Query::MatchAll), vec![a, b]);
    assert_eq!(docs(&db, &Query::MatchNone), vec![]);
    assert_eq!(scores(&db, &Query::MatchNone), vec![]);
    let plain = scores(&db, &term(&db, "title", "hello"));
    let tripled = Query::boost(term(&db, "title", "hello"), 3.0f32.to_bits());
    assert_eq!(scores(&db, &tripled), vec![(a, plain[0].1 * 3.0)]);
    assert_eq!(docs(&db, &tripled), vec![a]);
    let muted = Query::boost(term(&db, "title", "hello"), 0.0f32.to_bits());
    assert_eq!(scores(&db, &muted), vec![(a, 0.0)]);
    let negative_zero = Query::boost(term(&db, "title", "hello"), (-0.0f32).to_bits());
    assert_eq!(db.query(&negative_zero), vec![(a, Scalar::Bits(ZERO_BITS))]);
    let or = Query::or(vec![term(&db, "title", "hello"), Query::MatchAll]);
    assert_eq!(scores(&db, &or), vec![(a, 0.0 + plain[0].1 + 0.0), (b, 0.0)]);
}

#[test]
fn deleted_documents_never_match() {
    let mut db = titled();
    let a = insert(&mut db, "a", vec![field("title", "hello world")]);
    let b = insert(&mut db, "b", vec![field("title", "hello there")]);
    db.delete_document("a");
    let hello = term(&db, "title", "hello");
    let queries = vec![
        Query::MatchAll,
        term(&db, "title", "hello"),
        phrase(&db, "title", &["hello", "world"]),
        Query::or(vec![term(&db, "title", "world"), term(&db, "title", "there")]),
        Query::and(vec![term(&db, "title", "hello"), Query::MatchAll]),
        Query::not(term(&db, "title", "there")),
        Query::boost(term(&db, "title", "hello"), 0),
        Query::boost(term(&db, "title", "hello"), ONE_BITS),
    ];
    for query in &queries {
        assert!(!docs(&db, query).contains(&a));
        assert!(scores(&db, query).iter().all(|hit| hit.0 != a));
    }
    assert_eq!(docs(&db, &hello), vec![b]);
    // Postings stay; the statistics do too.
    let index = db.fields.value(db.fields.find(0).unwrap());
    assert_eq!(index.total_documents, 2);
    assert_eq!(index.total_terms, 4);
}

#[test]
fn scored_and_unscored_answers_agree() {
    let mut db = titled();
    insert(&mut db, "a", vec![field("title", "karl hobley")]);
    insert(&mut db, "b", vec![field("title", "karl smith")]);
    insert(&mut db, "c", vec![field("title", "john smith")]);
    db.delete_document("c");
    let queries = vec![
        Query::MatchAll,
        Query::MatchNone,
        term(&db, "title", "karl"),
        phrase(&db, "title", &["karl", "smith"]),
        Query::or(vec![term(&db, "title", "hobley"), term(&db, "title", "smith")]),
        Query::and(vec![term(&db, "title", "karl"), term(&db, "title", "smith")]),
        Query::filter(term(&db, "title", "karl"), term(&db, "title", "smith")),
        Query::exclude(term(&db, "title", "karl"), term(&db, "title", "smith")),
        Query::boost(term(&db, "title", "karl"), 0),
        Query::boost(term(&db, "title", "karl"), 2.0f32.to_bits()),
    ];
    for query in &queries {
        let scored: Vec<DocumentId> = scores(&db, query).iter().map(|hit| hit.0).collect();
        assert_eq!(scored, docs(&db, query));
    }
}

#[test]
fn double_negation_matches_the_same() {
    let mut db = titled();
    let a = insert(&mut db, "a", vec![field("title", "karl hobley")]);
    let b = insert(&mut db, "b", vec![field("title", "karl smith")]);
    let twice = Query::not(Query::not(term(&db, "title", "smith")));
    assert_eq!(docs(&db, &twice), docs(&db, &term(&db, "title", "smith")));
    assert_eq!(docs(&db, &twice), vec![b]);
    assert_eq!(docs(&db, &Query::not(term(&db, "title", "smith"))), vec![a]);
    assert_eq!(docs(&db, &Query::not(Query::not(Query::MatchAll))), vec![a, b]);
}

#[test]
fn primary_keys_round_trip() {
    let mut db = titled();
    let a = insert(&mut db, "a", vec![field("title", "hello")]);
    let b = insert(&mut db, "b", vec![field("title", "world")]);
    assert_eq!(a, DocumentId(0));
    assert_eq!(b, DocumentId(1));
    assert_eq!(db.doc_id_by_pk("a"), Some(a));
    assert_eq!(db.doc_id_by_pk("b"), Some(b));
    assert_eq!(db.doc_id_by_pk("c"), None);
    assert_eq!(db.pk_by_doc_id(b), Some(&"b".to_owned()));
    db.delete_document("a");
    assert_eq!(db.doc_id_by_pk("a"), None);
    assert_eq!(db.pk_by_doc_id(a), None);
    assert_eq!(db.doc_id_by_pk("b"), Some(b));
    db.delete_document("missing");
    assert_eq!(db.doc_id_by_pk("b"), Some(b));
    // A deleted key can be used again, for a new document.
    let again = insert(&mut db, "a", vec![field("title", "hello")]);
    assert_eq!(again, DocumentId(2));
    assert_eq!(docs(&db, &term(&db, "title", "hello")), vec![again]);
}

#[test]
fn duplicate_primary_key_is_refused() {
    let mut db = titled();
    insert(&mut db, "a", vec![field("title", "hello")]);
    let source = DocumentSource { pk: "a".to_owned(), fields: vec![field("title", "world")] };
    let doc = source.as_document(&mut db.term_dictionary, &db.data_dictionary);
    assert_eq!(db.insert_document("a".to_owned(), doc), Err(InsertError::AlreadyExists));
    assert_eq!(db.next_document_id, 1);
    assert_eq!(docs(&db, &term(&db, "title", "world")), vec![]);
    assert_eq!(docs(&db, &Query::MatchAll), vec![DocumentId(0)]);
}

#[test]
fn unknown_fields_are_dropped_and_empty_fields_kept() {
    let mut db = titled();
    let a = insert(&mut db, "a", vec![field("nowhere", "lost words"), field("title", "")]);
    assert_eq!(db.term_dictionary.lookup_by_name("lost"), None);
    let index = db.fields.value(db.fields.find(0).unwrap());
    assert_eq!(index.total_documents, 1);
    assert_eq!(index.total_terms, 0);
    assert_eq!(docs(&db, &Query::MatchAll), vec![a]);
    assert!(db.fields.find(1).is_none());
}

#[test]
fn statistics_count_documents_and_tokens_by_field() {
    let mut db = Database::new();
    db.data_dictionary.insert("title".to_owned(), FieldConfig::default());
    db.data_dictionary.insert("body".to_owned(), FieldConfig::default());
    insert(&mut db, "a", vec![field("title", "one two"), field("body", "three four five")]);
    insert(&mut db, "b", vec![field("title", "six")]);
    insert(&mut db, "c", vec![field("body", "seven eight")]);
    let title = db.fields.value(db.fields.find(0).unwrap());
    let body = db.fields.value(db.fields.find(1).unwrap());
    assert_eq!((title.total_documents, title.total_terms), (2, 3));
    assert_eq!((body.total_documents, body.total_terms), (2, 5));
}

#[test]
fn term_dictionary_interns_in_order() {
    let mut dict = TermDictionary::new();
    assert_eq!(dict.get_or_insert("b"), TermId(0));
    assert_eq!(dict.get_or_insert("a"), TermId(1));
    assert_eq!(dict.get_or_insert("b"), TermId(0));
    assert_eq!(dict.get_or_insert("B"), TermId(2));
    assert_eq!(dict.lookup_by_name("a"), Some(TermId(1)));
    assert_eq!(dict.lookup_by_name("c"), None);
    assert_eq!(dict.lookup_by_id(TermId(2)), Some(&"B".to_owned()));
    assert_eq!(dict.lookup_by_id(TermId(3)), None);
    assert_eq!(dict.next_id, 3);
}

#[test]
fn data_dictionary_registers_fields() {
    let mut dict = DataDictionary::new();
    let all = dict.insert("all".to_owned(), FieldConfig::default());
    let title = dict.insert(
        "title".to_owned(),
        FieldConfig::default().boost(2.0f32.to_bits()).copy_to(all).copy_to(all),
    );
    assert_eq!((all, title), (FieldId(0), FieldId(1)));
    let (id, config) = dict.get_by_name("title").unwrap();
    assert_eq!(id, title);
    assert_eq!(eval(&config.boost), 2.0);
    assert_eq!(config.copy_to, vec![all]);
    assert_eq!(eval(&dict.get(all).unwrap().boost), 1.0);
    assert!(dict.get(FieldId(2)).is_none());
    assert!(dict.get_by_name("Title").is_none());
    let default = FieldConfig::default();
    assert_eq!(default.boost, Scalar::Bits(ONE_BITS));
    assert!(default.copy_to.is_empty());
}

#[test]
fn vector_from_tokens_gathers_by_term() {
    let mut dict = TermDictionary::new();
    let tokens = vec![
        Token { term: "a".to_owned(), position: 1, weight: 1.0f32.to_bits() },
        Token { term: "b".to_owned(), position: 2, weight: 2.0f32.to_bits() },
        Token { term: "a".to_owned(), position: 2, weight: 0.5f32.to_bits() },
    ];
    let vector = TSVector::from_tokens(&tokens, &mut dict);
    assert_eq!(vector.length, 3);
    assert_eq!(vector.terms.len(), 2);
    let a = vector.terms.value(vector.terms.find(0).unwrap());
    let b = vector.terms.value(vector.terms.find(1).unwrap());
    assert_eq!(a.positions, vec![1, 2]);
    assert_eq!(b.positions, vec![2]);
    assert_eq!(eval(&a.weight), 1.5);
    assert_eq!(eval(&b.weight), 2.0);
    assert_eq!(
        a.weight,
        Scalar::sum(
            Scalar::sum(Scalar::Bits(ZERO_BITS), Scalar::Bits(1.0f32.to_bits())),
            Scalar::Bits(0.5f32.to_bits())
        )
    );
}

#[test]
fn vector_append_shifts_and_adds() {
    let mut dict = TermDictionary::new();
    let mut left = TSVector::from_tokens(&tokenize_string("a b"), &mut dict);
    let right = TSVector::from_tokens(&tokenize_string("b c b"), &mut dict);
    let copy = right.duplicate();
    left.boost(&Scalar::Bits(2.0f32.to_bits()));
    left.append(&right);
    assert_eq!(left.length, 5);
    let a = left.terms.value(left.terms.find(0).unwrap());
    let b = left.terms.value(left.terms.find(1).unwrap());
    let c = left.terms.value(left.terms.find(2).unwrap());
    assert_eq!(a.positions, vec![1]);
    assert_eq!(b.positions, vec![2, 3, 5]);
    assert_eq!(c.positions, vec![4]);
    assert_eq!(eval(&a.weight), 2.0);
    assert_eq!(eval(&b.weight), 4.0);
    assert_eq!(eval(&c.weight), 1.0);
    assert_eq!(copy.length, 3);
    assert_eq!(copy.terms.value(copy.terms.find(1).unwrap()).positions, vec![1, 3]);
    // Appending is not commutative: the positions move by the receiver's length.
    let mut other = copy;
    let first = TSVector::from_tokens(&tokenize_string("a b"), &mut dict);
    other.append(&first);
    assert_eq!(other.terms.value(other.terms.find(0).unwrap()).positions, vec![4]);
}

#[test]
fn index_fields_then_copies() {
    let mut terms = TermDictionary::new();
    let mut fields = DataDictionary::new();
    let all = fields.insert("all".to_owned(), FieldConfig::default());
    let title = fields.insert("title".to_owned(), FieldConfig::default().copy_to(all));
    let sources = vec![field("title", "x y"), field("unknown", "z")];
    let direct: Document = index_fields(&sources, &mut terms, &fields);
    assert_eq!(direct.fields.len(), 1);
    assert_eq!(direct.fields.key(0), title.0);
    assert_eq!(terms.next_id, 2);
    let doc = apply_copies(&direct, &fields);
    assert_eq!(doc.fields.len(), 2);
    assert_eq!(doc.fields.key(0), title.0);
    assert_eq!(doc.fields.key(1), all.0);
    assert_eq!(doc.fields.value(1).length, 2);
}

#[test]
fn index_inserts_postings_in_document_order() {
    let mut dict = TermDictionary::new();
    let mut index = InvertedIndex::new();
    let first = TSVector::from_tokens(&tokenize_string("a b a"), &mut dict);
    let second = TSVector::from_tokens(&tokenize_string("b"), &mut dict);
    assert!(index.can_insert(DocumentId(3)));
    index.insert_tsvector(DocumentId(3), &first);
    assert!(!index.can_insert(DocumentId(3)));
    assert!(!index.can_insert(DocumentId(1)));
    index.insert_tsvector(DocumentId(7), &second);
    assert_eq!(index.docs_with_term(TermId(1)), vec![DocumentId(3), DocumentId(7)]);
    assert_eq!(index.docs_with_term(TermId(0)), vec![DocumentId(3)]);
    assert_eq!(index.term_total_frequency(TermId(0)), Some(2));
    assert_eq!(index.docs_with_phrase(&vec![TermId(1), TermId(0)]), vec![DocumentId(3)]);
    assert_eq!(index.docs_with_phrase(&vec![TermId(1)]), vec![DocumentId(3), DocumentId(7)]);
    assert_eq!(index.docs_with_phrase(&vec![TermId(0), TermId(0)]), vec![]);
    assert_eq!(index.docs_with_phrase(&vec![TermId(1), TermId(5)]), vec![]);
    let list = index.postings.value(index.postings.find(1).unwrap());
    assert_eq!(find_posting(list, DocumentId(7)), Some(1));
    assert_eq!(find_posting(list, DocumentId(3)), Some(0));
    assert_eq!(find_posting(list, DocumentId(5)), None);
    let hits = index.search(TermId(0));
    assert_eq!(hits.len(), 1);
    // weight 2; one document holds the term; four tokens in two documents
    assert_eq!(eval(&hits[0].1), 2.0 * (1.0 / 2.0f32.log2()) * (1.0 / (2.0f32 / 4.0)));
    let phrase_hits = index.phrase_search(&vec![TermId(0), TermId(1)]);
    assert_eq!(phrase_hits.len(), 1);
    assert_eq!(phrase_hits[0].0, DocumentId(3));
}

#[test]
fn hashed_sets_and_tables() {
    let mut set = IdSet::new();
    assert!(!set.contains(4));
    set.insert(4);
    set.insert(9);
    assert!(set.contains(4) && set.contains(9) && !set.contains(5));
    let mut table: IdTable<u8> = IdTable::new();
    assert_eq!(table.find(7), None);
    table.push(7, 1);
    table.push(3, 2);
    assert_eq!(table.find(7), Some(0));
    assert_eq!(table.find(3), Some(1));
    assert_eq!(table.find(0), None);
    assert_eq!((table.key(1), *table.value(1), table.len()), (3, 2, 2));
    *table.value_mut(0) = 5;
    assert_eq!(table.into_parts(), (vec![7, 3], vec![5, 2]));
    let positions = PositionSet::from_positions(&vec![5, 2, 5, 9]);
    assert_eq!(positions.len(), 3);
    assert!(positions.contains(2) && positions.contains(5) && positions.contains(9));
    assert!(!positions.contains(3));
    let mut listed = positions.to_vec();
    listed.sort();
    assert_eq!(listed, vec![2, 5, 9]);
    let mut next = advance(&vec![1, 4, 8, usize::MAX], &positions);
    next.sort();
    assert_eq!(next, vec![2, 5, 9]);
}

#[test]
fn defaults_are_empty() {
    let db = Database::default();
    assert_eq!(db.next_document_id, 0);
    assert_eq!(db.simple_match(&Query::MatchAll), vec![]);
    assert_eq!(TermDictionary::default().next_id, 0);
    assert_eq!(DataDictionary::default().next_field_id, 0);
    let index = InvertedIndex::default();
    assert_eq!((index.total_documents, index.total_terms), (0, 0));
    assert!(index.can_insert(DocumentId(0)));
    let vector = TSVector::default();
    assert_eq!((vector.length, vector.terms.len()), (0, 0));
    let entry = sparrow::tsvector::TSVectorTerm::default();
    assert!(entry.positions.is_empty());
    assert_eq!(entry.weight, Scalar::Bits(ZERO_BITS));
}

#[test]
fn scalars_are_terms() {
    assert!(is_zero_bits(0.0f32.to_bits()));
    assert!(is_zero_bits((-0.0f32).to_bits()));
    assert!(!is_zero_bits(1.0f32.to_bits()));
    assert!(!is_zero_bits(f32::MIN_POSITIVE.to_bits()));
    assert_eq!(ONE_BITS, 1.0f32.to_bits());
    assert_eq!(ZERO_BITS, 0.0f32.to_bits());
    let term = Scalar::quotient(
        Scalar::product(Scalar::one(), Scalar::Count(6)),
        Scalar::log2(Scalar::sum(Scalar::Count(3), Scalar::one())),
    );
    assert_eq!(eval(&term), 3.0);
    assert_eq!(term.duplicate(), term);
    assert_eq!(Scalar::zero(), Scalar::Bits(0));
}

#[test]
fn named_queries_resolve_and_simplify() {
    let mut db = titled();
    insert(&mut db, "a", vec![field("title", "karl hobley")]);
    let karl = QuerySource::Term { field: "title".to_owned(), term: "karl".to_owned() };
    let unknown = QuerySource::Term { field: "title".to_owned(), term: "nobody".to_owned() };
    let source = QuerySource::And(vec![
        QuerySource::Or(vec![karl, unknown]),
        QuerySource::MatchAll,
        QuerySource::Boost {
            query: Box::new(QuerySource::MatchNone),
            boost: 2.0f32.to_bits(),
        },
    ]);
    let query = source.as_query(&db.term_dictionary, &db.data_dictionary);
    assert_eq!(
        query,
        Query::And(vec![
            Query::Term(FieldId(0), TermId(0)),
            Query::Boost(Box::new(Query::MatchNone), 2.0f32.to_bits()),
        ])
    );
    let none = QuerySource::Filter {
        query: Box::new(QuerySource::MatchNone),
        filter: Box::new(QuerySource::MatchAll),
    };
    assert_eq!(none.as_query(&db.term_dictionary, &db.data_dictionary), Query::MatchNone);
    let not_all = QuerySource::Exclude {
        query: Box::new(QuerySource::MatchAll),
        filter: Box::new(QuerySource::MatchNone),
    };
    assert_eq!(not_all.as_query(&db.term_dictionary, &db.data_dictionary), Query::MatchAll);
}

#[test]
fn simplifier_examples() {
    let f = FieldId(1);
    let a = TermId(2);
    assert_eq!(
        Query::and(vec![Query::or(vec![Query::Term(f, a)]), Query::MatchAll]),
        Query::Term(f, a)
    );
    assert_eq!(Query::or(vec![Query::MatchNone, Query::MatchNone]), Query::MatchNone);
    assert_eq!(Query::filter(Query::MatchNone, Query::Term(f, a)), Query::MatchNone);
    assert_eq!(
        Query::not(Query::not(Query::Term(f, a))),
        Query::Filter(Box::new(Query::MatchAll), Box::new(Query::Term(f, a)))
    );
    // One `MatchAll` is kept, in last place, also when it comes from a nested disjunction.
    assert_eq!(
        Query::or(vec![
            Query::Or(vec![Query::Term(f, a), Query::MatchAll]),
            Query::Term(f, TermId(3)),
            Query::MatchAll,
        ]),
        Query::Or(vec![Query::Term(f, a), Query::Term(f, TermId(3)), Query::MatchAll])
    );
    assert_eq!(Query::or(vec![]), Query::MatchNone);
    assert_eq!(Query::and(vec![]), Query::MatchNone);
    assert_eq!(Query::or(vec![Query::Term(f, a)]), Query::Term(f, a));
    assert_eq!(Query::and(vec![Query::Term(f, a)]), Query::Term(f, a));
    assert!(Query::MatchAll.is_match_all() && !Query::MatchNone.is_match_all());
    assert!(Query::MatchNone.is_match_none() && !Query::MatchAll.is_match_none());
}

#[test]
fn vector_addition_leaves_both_as_they_are() {
    let mut dict = TermDictionary::new();
    let left = TSVector::from_tokens(&tokenize_string("a b"), &mut dict);
    let right = TSVector::from_tokens(&tokenize_string("b c"), &mut dict);
    let sum = left.add(&right);
    assert_eq!((left.length, right.length, sum.length), (2, 2, 4));
    assert_eq!(sum.terms.value(sum.terms.find(1).unwrap()).positions, vec![2, 3]);
    assert_eq!(sum.terms.value(sum.terms.find(2).unwrap()).positions, vec![4]);
    assert_eq!(left.terms.value(left.terms.find(1).unwrap()).positions, vec![2]);
    // (a + b) + c and a + (b + c) hold the same
    let third = TSVector::from_tokens(&tokenize_string("c a"), &mut dict);
    let one = left.add(&right).add(&third);
    let other = left.add(&right.add(&third));
    assert_eq!(one.length, other.length);
    for term in 0..3u32 {
        let x = one.terms.value(one.terms.find(term).unwrap());
        let y = other.terms.value(other.terms.find(term).unwrap());
        assert_eq!(x.positions, y.positions);
        assert_eq!(eval(&x.weight), eval(&y.weight));
    }
}
