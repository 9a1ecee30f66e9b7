//! The ingest pipeline: from the tokens of a document's fields to the
//! positional vectors that are indexed.

use vstd::prelude::*;
use crate::data_dictionary::{DataDictionary, FieldConfig};
use crate::database::Document;
use crate::ids::{FieldId, TermId};
use crate::scalar::Scalar;
use crate::term_dictionary::TermDictionary;
use crate::tsvector::{
    appended, boosted, from_tokens_view, interned, lemma_same_ids, shift_fits, TSVector,
    TSVectorView, Token,
};

verus! {

/// The tokens of one field of a document, under the field's name.
pub struct FieldSource {
    pub name: String,
    pub tokens: Vec<Token>,
}

/// A document as a client supplies it.
pub struct DocumentSource {
    /// The document's primary key.
    pub pk: String,
    /// The document's fields, in the order in which they are indexed.
    pub fields: Vec<FieldSource>,
}

/// The vector of a field without tokens.
pub open spec fn empty_view() -> TSVectorView {
    TSVectorView { length: 0, terms: Map::empty() }
}

/// The factor by which the weights of a field of `length` tokens are
/// multiplied: the field's boost, divided by the length unless that is zero.
pub open spec fn scale_of(config: FieldConfig, length: usize) -> Scalar {
    if length == 0 {
        config.boost
    } else {
        Scalar::div_spec(config.boost, Scalar::Count(length))
    }
}

/// The vector that is made of a field's tokens: their positions and summed
/// weights by term, each weight multiplied by the field's scale.
pub open spec fn field_view(ids: Map<Seq<char>, TermId>, config: FieldConfig, tokens: Seq<Token>)
    -> TSVectorView {
    boosted(from_tokens_view(ids, tokens), scale_of(config, tokens.len() as usize))
}

/// The vectors of the first `n` fields, by field identifier. A field whose
/// name is not registered is left out; of two fields with one identifier the
/// later stands.
pub open spec fn direct_views(
    ids: Map<Seq<char>, TermId>,
    known: Map<Seq<char>, FieldId>,
    configs: Seq<FieldConfig>,
    fields: Seq<FieldSource>,
    n: nat,
) -> Map<u32, TSVectorView>
    decreases n,
{
    if n == 0 || n > fields.len() {
        Map::empty()
    } else {
        let rest = direct_views(ids, known, configs, fields, (n - 1) as nat);
        let field = fields[n - 1];
        if known.contains_key(field.name@) {
            let id = known[field.name@];
            rest.insert(id.0, field_view(ids, configs[id.0 as int], field.tokens@))
        } else {
            rest
        }
    }
}

/// The identifiers of the first `n` fields whose names are registered, each
/// once, in the order of first appearance.
pub open spec fn direct_order(known: Map<Seq<char>, FieldId>, fields: Seq<FieldSource>, n: nat)
    -> Seq<u32>
    decreases n,
{
    if n == 0 || n > fields.len() {
        Seq::empty()
    } else {
        let rest = direct_order(known, fields, (n - 1) as nat);
        let field = fields[n - 1];
        if known.contains_key(field.name@) && !rest.contains(known[field.name@].0) {
            rest.push(known[field.name@].0)
        } else {
            rest
        }
    }
}

/// The names that the term dictionary holds after the tokens of the first
/// `n` fields whose names are registered are interned in order.
pub open spec fn names_after(
    names: Seq<Seq<char>>,
    known: Map<Seq<char>, FieldId>,
    fields: Seq<FieldSource>,
    n: nat,
) -> Seq<Seq<char>>
    decreases n,
{
    if n == 0 || n > fields.len() {
        names
    } else {
        let rest = names_after(names, known, fields, (n - 1) as nat);
        let field = fields[n - 1];
        if known.contains_key(field.name@) {
            interned(rest, field.tokens@, field.tokens@.len())
        } else {
            rest
        }
    }
}

/// The number of tokens in the first `n` fields.
pub open spec fn token_total(fields: Seq<FieldSource>, n: nat) -> nat
    decreases n,
{
    if n == 0 || n > fields.len() {
        0
    } else {
        token_total(fields, (n - 1) as nat) + fields[n - 1].tokens@.len()
    }
}

/// The vector under `field` in `vectors`: the empty one where there is none.
pub open spec fn vector_or_empty(vectors: Map<u32, TSVectorView>, field: u32) -> TSVectorView {
    if vectors.contains_key(field) {
        vectors[field]
    } else {
        empty_view()
    }
}

/// `vectors` after `source` is appended to the vector of each of the first
/// `n` destinations, in order.
pub open spec fn copy_into(
    vectors: Map<u32, TSVectorView>,
    source: TSVectorView,
    destinations: Seq<FieldId>,
    n: nat,
) -> Map<u32, TSVectorView>
    decreases n,
{
    if n == 0 || n > destinations.len() {
        vectors
    } else {
        let rest = copy_into(vectors, source, destinations, (n - 1) as nat);
        let to = destinations[n - 1].0;
        rest.insert(to, appended(vector_or_empty(rest, to), source))
    }
}

/// Whether each of those appends stays within the machine's range.
pub open spec fn copy_fits(
    vectors: Map<u32, TSVectorView>,
    source: TSVectorView,
    destinations: Seq<FieldId>,
    n: nat,
) -> bool
    decreases n,
{
    if n == 0 || n > destinations.len() {
        true
    } else {
        let rest = copy_into(vectors, source, destinations, (n - 1) as nat);
        let to = vector_or_empty(rest, destinations[n - 1].0);
        &&& copy_fits(vectors, source, destinations, (n - 1) as nat)
        &&& to.length + source.length <= usize::MAX
        &&& shift_fits(source, to.length)
    }
}

/// The vectors of a document after the copies of the first `n` fields of
/// `order` are made: each field's vector, as it was before any copy, is
/// appended to the vector of each of its destinations.
pub open spec fn copied(
    direct: Map<u32, TSVectorView>,
    configs: Seq<FieldConfig>,
    order: Seq<u32>,
    n: nat,
) -> Map<u32, TSVectorView>
    decreases n,
{
    if n == 0 || n > order.len() {
        direct
    } else {
        let rest = copied(direct, configs, order, (n - 1) as nat);
        let from = order[n - 1];
        let to = configs[from as int].copy_to@;
        copy_into(rest, direct[from], to, to.len())
    }
}

/// Whether each of those copies stays within the machine's range.
pub open spec fn copies_fit(
    direct: Map<u32, TSVectorView>,
    configs: Seq<FieldConfig>,
    order: Seq<u32>,
    n: nat,
) -> bool
    decreases n,
{
    if n == 0 || n > order.len() {
        true
    } else {
        let rest = copied(direct, configs, order, (n - 1) as nat);
        let from = order[n - 1];
        let to = configs[from as int].copy_to@;
        copies_fit(direct, configs, order, (n - 1) as nat) && copy_fits(
            rest,
            direct[from],
            to,
            to.len(),
        )
    }
}

impl Document {
    /// The document's vectors, by field.
    pub open spec fn views(&self) -> Map<u32, TSVectorView> {
        Map::new(|f: u32| self.has(f), |f: u32| self.vector(f)@)
    }
}

/// Appends `source` to the vector of each destination, which is made where
/// the document has none.
pub fn copy_to_each(doc: &mut Document, source: &TSVector, destinations: &Vec<FieldId>)
    requires
        old(doc).wf(),
        source.wf(),
        copy_fits(old(doc).views(), source@, destinations@, destinations@.len()),
    ensures
        final(doc).wf(),
        final(doc).views() == copy_into(
            old(doc).views(),
            source@,
            destinations@,
            destinations@.len(),
        ),
{
    let ghost start = doc.views();
    let mut k: usize = 0;
    while k < destinations.len()
        invariant
            k <= destinations.len(),
            doc.wf(),
            source.wf(),
            start == old(doc).views(),
            copy_fits(start, source@, destinations@, destinations@.len()),
            doc.views() == copy_into(start, source@, destinations@, k as nat),
        decreases destinations.len() - k,
    {
        let to = destinations[k].0;
        let ghost before = doc.fields.map();
        let ghost views = doc.views();
        proof {
            lemma_copy_fits_prefix(
                start,
                source@,
                destinations@,
                destinations@.len(),
                (k + 1) as nat,
            );
        }
        match doc.fields.find(to) {
            Some(slot) => {
                assert(views.contains_key(to));
                assert(views[to] == before[to]@);
                let vector = doc.fields.value_mut(slot);
                vector.append(source);
            },
            None => {
                assert(!views.contains_key(to));
                let mut vector = TSVector::new();
                assert(vector@.terms =~= empty_view().terms);
                vector.append(source);
                doc.fields.push(to, vector);
            },
        }
        proof {
            let now = doc.fields.map();
            assert forall|f: u32| #[trigger] now.contains_key(f) implies now[f].wf() by {
                if f != to {
                    assert(before.contains_key(f));
                }
            }
            assert(doc.views() =~= views.insert(to, appended(vector_or_empty(views, to), source@)));
        }
        k += 1;
    }
}

/// Where all the appends to the first `n` destinations fit, so do those to
/// the first `m`, for `m` up to `n`.
pub proof fn lemma_copy_fits_prefix(
    vectors: Map<u32, TSVectorView>,
    source: TSVectorView,
    destinations: Seq<FieldId>,
    n: nat,
    m: nat,
)
    requires
        m <= n <= destinations.len(),
        copy_fits(vectors, source, destinations, n),
    ensures
        copy_fits(vectors, source, destinations, m),
    decreases n,
{
    if m < n {
        lemma_copy_fits_prefix(vectors, source, destinations, (n - 1) as nat, m);
    }
}

/// Where all the copies of the first `n` fields fit, so do those of the
/// first `m`, for `m` up to `n`.
pub proof fn lemma_copies_fit_prefix(
    direct: Map<u32, TSVectorView>,
    configs: Seq<FieldConfig>,
    order: Seq<u32>,
    n: nat,
    m: nat,
)
    requires
        m <= n <= order.len(),
        copies_fit(direct, configs, order, n),
    ensures
        copies_fit(direct, configs, order, m),
    decreases n,
{
    if m < n {
        lemma_copies_fit_prefix(direct, configs, order, (n - 1) as nat, m);
    }
}

/// The document that `direct` becomes when the copies that the field
/// configurations ask for are made: the vector of each field of `direct`, as
/// it stands there, is appended to the vector of each field that it is
/// copied to. Destinations of destinations are not followed.
pub fn apply_copies(direct: &Document, data_dict: &DataDictionary) -> (doc: Document)
    requires
        direct.wf(),
        data_dict.wf(),
        forall|i: int|
            0 <= i < direct.fields.keys().len() ==> (#[trigger] direct.fields.keys()[i])
                < data_dict.fields@.len(),
        copies_fit(
            direct.views(),
            data_dict.fields@,
            direct.fields.keys(),
            direct.fields.keys().len(),
        ),
    ensures
        doc.wf(),
        doc.views() == copied(
            direct.views(),
            data_dict.fields@,
            direct.fields.keys(),
            direct.fields.keys().len(),
        ),
{
    let ghost keys = direct.fields.keys();
    let ghost configs = data_dict.fields@;
    let ghost base = direct.views();
    let n = direct.fields.len();
    let mut doc = Document::new();
    proof {
        direct.fields.lemma_wf();
    }
    let mut i: usize = 0;
    while i < n
        invariant
            direct.wf(),
            keys == direct.fields.keys(),
            keys.no_duplicates(),
            n == keys.len(),
            i <= n,
            doc.wf(),
            forall|f: u32| #[trigger] doc.has(f) <==> keys.take(i as int).contains(f),
            forall|f: u32| #[trigger] doc.has(f) ==> direct.has(f) && doc.vector(f)@ == direct.vector(f)@,
        decreases n - i,
    {
        let key = direct.fields.key(i);
        let vector = direct.fields.value(i);
        let ghost prior = doc;
        proof {
            direct.fields.lemma_wf();
            assert(keys.take(i + 1) =~= keys.take(i as int).push(key));
            if keys.take(i as int).contains(key) {
                let k = choose|k: int| 0 <= k < i && keys.take(i as int)[k] == key;
                assert(keys[k] == keys[i as int]);
            }
            assert forall|f: u32| keys.take(i + 1).contains(f) <==> (f == key || keys.take(
                i as int,
            ).contains(f)) by {
                if keys.take(i as int).contains(f) {
                    let k = choose|k: int| 0 <= k < i && keys.take(i as int)[k] == f;
                    assert(keys.take(i + 1)[k] == f);
                }
                assert(keys.take(i + 1)[i as int] == key);
            }
            assert(direct.has(key));
            assert(!doc.has(key));
        }
        let copy = vector.duplicate();
        doc.fields.push(key, copy);
        proof {
            assert forall|f: u32| #[trigger] doc.has(f) <==> keys.take(i + 1).contains(f) by {
                assert(prior.has(f) <==> keys.take(i as int).contains(f));
            }
            assert forall|f: u32| #[trigger] doc.has(f) implies doc.vector(f).wf() && direct.has(f)
                && doc.vector(f)@ == direct.vector(f)@ by {
                if f != key {
                    assert(prior.has(f));
                    assert(doc.vector(f) == prior.vector(f));
                }
            }
        }
        i += 1;
    }
    proof {
        assert(keys.take(n as int) =~= keys);
        assert forall|f: u32| direct.has(f) == keys.contains(f) by {}
        assert(doc.views() =~= base);
    }
    let mut a: usize = 0;
    while a < n
        invariant
            direct.wf(),
            data_dict.wf(),
            keys == direct.fields.keys(),
            configs == data_dict.fields@,
            base == direct.views(),
            n == keys.len(),
            a <= n,
            forall|i: int| 0 <= i < keys.len() ==> (#[trigger] keys[i]) < configs.len(),
            copies_fit(base, configs, keys, n as nat),
            doc.wf(),
            doc.views() == copied(base, configs, keys, a as nat),
        decreases n - a,
    {
        let key = direct.fields.key(a);
        let vector = direct.fields.value(a);
        proof {
            direct.fields.lemma_wf();
            assert(keys[a as int] < configs.len());
            lemma_copies_fit_prefix(base, configs, keys, n as nat, (a + 1) as nat);
            assert(base[key] == vector@);
        }
        match data_dict.get(FieldId(key)) {
            Some(config) => {
                copy_to_each(&mut doc, vector, &config.copy_to);
            },
            None => {},
        }
        a += 1;
    }
    doc
}

/// The token counts of the first `m` fields are no more than those of the
/// first `n`, for `m` up to `n`.
pub proof fn lemma_token_total_rises(fields: Seq<FieldSource>, m: nat, n: nat)
    requires
        m <= n <= fields.len(),
    ensures
        token_total(fields, m) <= token_total(fields, n),
    decreases n,
{
    if m < n {
        lemma_token_total_rises(fields, m, (n - 1) as nat);
    }
}

/// Whether two assignments give each token of the first `n` registered
/// fields the same identifier.
pub open spec fn same_on_fields(
    a: Map<Seq<char>, TermId>,
    b: Map<Seq<char>, TermId>,
    known: Map<Seq<char>, FieldId>,
    fields: Seq<FieldSource>,
    n: nat,
) -> bool {
    forall|j: int, t: int|
        0 <= j < n && j < fields.len() && known.contains_key(fields[j].name@) && 0 <= t
            < fields[j].tokens@.len() ==> a[(#[trigger] fields[j].tokens@[t]).term@]
            == b[fields[j].tokens@[t].term@]
}

/// The vector of a field depends only on the identifiers of its tokens'
/// terms.
pub proof fn lemma_field_view_same(
    a: Map<Seq<char>, TermId>,
    b: Map<Seq<char>, TermId>,
    config: FieldConfig,
    tokens: Seq<Token>,
)
    requires
        forall|t: int| 0 <= t < tokens.len() ==> a[(#[trigger] tokens[t]).term@] == b[tokens[t].term@],
    ensures
        field_view(a, config, tokens) == field_view(b, config, tokens),
{
    assert forall|term: u32|
        from_tokens_view(a, tokens).terms.contains_key(term) == from_tokens_view(
            b,
            tokens,
        ).terms.contains_key(term) by {
        lemma_same_ids(a, b, tokens, tokens.len(), term);
    }
    assert forall|term: u32|
        from_tokens_view(a, tokens).terms.contains_key(term) implies from_tokens_view(
        a,
        tokens,
    ).terms[term] == from_tokens_view(b, tokens).terms[term] by {
        lemma_same_ids(a, b, tokens, tokens.len(), term);
    }
    assert(from_tokens_view(a, tokens).terms =~= from_tokens_view(b, tokens).terms);
}

/// The vectors of the first `n` fields depend only on the identifiers of
/// their tokens' terms.
pub proof fn lemma_direct_same(
    a: Map<Seq<char>, TermId>,
    b: Map<Seq<char>, TermId>,
    known: Map<Seq<char>, FieldId>,
    configs: Seq<FieldConfig>,
    fields: Seq<FieldSource>,
    n: nat,
)
    requires
        n <= fields.len(),
        same_on_fields(a, b, known, fields, n),
    ensures
        direct_views(a, known, configs, fields, n) == direct_views(b, known, configs, fields, n),
    decreases n,
{
    if n > 0 {
        assert(same_on_fields(a, b, known, fields, (n - 1) as nat));
        lemma_direct_same(a, b, known, configs, fields, (n - 1) as nat);
        let field = fields[n - 1];
        if known.contains_key(field.name@) {
            assert forall|t: int| 0 <= t < field.tokens@.len() implies a[(
            #[trigger] field.tokens@[t]).term@] == b[field.tokens@[t].term@] by {
                assert(a[fields[n - 1].tokens@[t].term@] == b[fields[n - 1].tokens@[t].term@]);
            }
            lemma_field_view_same(
                a,
                b,
                configs[known[field.name@].0 as int],
                field.tokens@,
            );
        }
    }
}

/// The vectors of the fields whose names are registered, before any copy:
/// the tokens of each are interned and gathered, and the weights are
/// multiplied by the field's boost and divided by the field's length.
pub fn index_fields(
    fields: &Vec<FieldSource>,
    term_dict: &mut TermDictionary,
    data_dict: &DataDictionary,
) -> (direct: Document)
    requires
        old(term_dict).wf(),
        data_dict.wf(),
        old(term_dict).next_id + token_total(fields@, fields@.len()) <= u32::MAX,
    ensures
        final(term_dict).wf(),
        final(term_dict).names() == names_after(
            old(term_dict).names(),
            data_dict.field_names@,
            fields@,
            fields@.len(),
        ),
        forall|name: Seq<char>|
            #![trigger old(term_dict).has(name)]
            old(term_dict).has(name) ==> final(term_dict).has(name) && final(term_dict).id_of(name)
                == old(term_dict).id_of(name),
        direct.wf(),
        direct.fields.keys() == direct_order(data_dict.field_names@, fields@, fields@.len()),
        direct.views() == direct_views(
            final(term_dict).terms@,
            data_dict.field_names@,
            data_dict.fields@,
            fields@,
            fields@.len(),
        ),
        forall|i: int|
            0 <= i < direct.fields.keys().len() ==> (#[trigger] direct.fields.keys()[i])
                < data_dict.fields@.len(),
{
    let ghost known = data_dict.field_names@;
    let ghost configs = data_dict.fields@;
    let ghost all = fields@;
    let n = fields.len();
    let mut direct = Document::new();
    assert(direct.views() =~= Map::<u32, TSVectorView>::empty());
    let mut i: usize = 0;
    while i < n
        invariant
            data_dict.wf(),
            known == data_dict.field_names@,
            configs == data_dict.fields@,
            all == fields@,
            n == all.len(),
            i <= n,
            old(term_dict).next_id + token_total(all, n as nat) <= u32::MAX,
            term_dict.wf(),
            term_dict.next_id <= old(term_dict).next_id + token_total(all, i as nat),
            term_dict.names() == names_after(old(term_dict).names(), known, all, i as nat),
            forall|name: Seq<char>|
                #![trigger old(term_dict).has(name)]
                old(term_dict).has(name) ==> term_dict.has(name) && term_dict.id_of(name) == old(
                    term_dict,
                ).id_of(name),
            forall|j: int, t: int|
                0 <= j < i && known.contains_key(all[j].name@) && 0 <= t < all[j].tokens@.len()
                    ==> term_dict.has((#[trigger] all[j].tokens@[t]).term@),
            direct.wf(),
            direct.fields.keys() == direct_order(known, all, i as nat),
            direct.views() == direct_views(term_dict.terms@, known, configs, all, i as nat),
            forall|k: int|
                0 <= k < direct.fields.keys().len() ==> (#[trigger] direct.fields.keys()[k])
                    < configs.len(),
        decreases n - i,
    {
        let field = &fields[i];
        let ghost ids = term_dict.terms@;
        let ghost entry = *term_dict;
        let ghost views = direct.views();
        let ghost prior = direct;
        proof {
            lemma_token_total_rises(all, (i + 1) as nat, n as nat);
            direct.fields.lemma_wf();
        }
        match data_dict.get_by_name(field.name.as_str()) {
            Some((id, config)) => {
                let mut vector = TSVector::from_tokens(&field.tokens, term_dict);
                let factor = if vector.length == 0 {
                    config.boost.duplicate()
                } else {
                    Scalar::quotient(config.boost.duplicate(), Scalar::Count(vector.length))
                };
                vector.boost(&factor);
                proof {
                    let now = term_dict.terms@;
                    assert(same_on_fields(ids, now, known, all, i as nat)) by {
                        assert forall|j: int, t: int|
                            0 <= j < i && j < all.len() && known.contains_key(all[j].name@) && 0
                                <= t < all[j].tokens@.len() implies ids[(
                        #[trigger] all[j].tokens@[t]).term@] == now[all[j].tokens@[t].term@] by {
                            assert(entry.has(all[j].tokens@[t].term@));
                        }
                    }
                    lemma_direct_same(ids, now, known, configs, all, i as nat);
                    assert(vector@ == field_view(now, configs[id.0 as int], field.tokens@));
                    assert forall|name: Seq<char>|
                        #![trigger old(term_dict).has(name)]
                        old(term_dict).has(name) implies term_dict.has(name) && term_dict.id_of(
                        name,
                    ) == old(term_dict).id_of(name) by {
                        assert(entry.has(name));
                    }
                    assert forall|j: int, t: int|
                        0 <= j < i + 1 && known.contains_key(all[j].name@) && 0 <= t
                            < all[j].tokens@.len() implies term_dict.has(
                        (#[trigger] all[j].tokens@[t]).term@,
                    ) by {
                        if j < i {
                            assert(entry.has(all[j].tokens@[t].term@));
                        }
                    }
                }
                match direct.fields.find(id.0) {
                    Some(slot) => {
                        let place = direct.fields.value_mut(slot);
                        *place = vector;
                    },
                    None => {
                        direct.fields.push(id.0, vector);
                    },
                }
                proof {
                    let now = direct.fields.map();
                    assert forall|f: u32| #[trigger] now.contains_key(f) implies now[f].wf() by {
                        if f != id.0 {
                            assert(prior.fields.map().contains_key(f));
                        }
                    }
                    assert(direct.views() =~= views.insert(
                        id.0,
                        field_view(term_dict.terms@, configs[id.0 as int], field.tokens@),
                    ));
                    assert(prior.fields.map().contains_key(id.0) <==> prior.fields.keys().contains(
                        id.0,
                    ));
                }
            },
            None => {},
        }
        i += 1;
    }
    direct
}

impl DocumentSource {
    /// The document that is indexed for this source.
    ///
    /// The fields whose names are registered are turned into vectors, in
    /// order. Then the vector of each such field, as it stands before any
    /// copy, is appended to the vector of each field that it is copied to.
    pub fn as_document(&self, term_dict: &mut TermDictionary, data_dict: &DataDictionary) -> (doc:
        Document)
        requires
            old(term_dict).wf(),
            data_dict.wf(),
            old(term_dict).next_id + token_total(self.fields@, self.fields@.len()) <= u32::MAX,
            forall|ids: Map<Seq<char>, TermId>|
                copies_fit(
                    #[trigger] direct_views(
                        ids,
                        data_dict.field_names@,
                        data_dict.fields@,
                        self.fields@,
                        self.fields@.len(),
                    ),
                    data_dict.fields@,
                    direct_order(data_dict.field_names@, self.fields@, self.fields@.len()),
                    direct_order(data_dict.field_names@, self.fields@, self.fields@.len()).len(),
                ),
        ensures
            final(term_dict).wf(),
            final(term_dict).names() == names_after(
                old(term_dict).names(),
                data_dict.field_names@,
                self.fields@,
                self.fields@.len(),
            ),
            forall|name: Seq<char>|
                #![trigger old(term_dict).has(name)]
                old(term_dict).has(name) ==> final(term_dict).has(name)
                    && final(term_dict).id_of(name) == old(term_dict).id_of(name),
            doc.wf(),
            doc.views() == copied(
                direct_views(
                    final(term_dict).terms@,
                    data_dict.field_names@,
                    data_dict.fields@,
                    self.fields@,
                    self.fields@.len(),
                ),
                data_dict.fields@,
                direct_order(data_dict.field_names@, self.fields@, self.fields@.len()),
                direct_order(data_dict.field_names@, self.fields@, self.fields@.len()).len(),
            ),
    {
        let direct = index_fields(&self.fields, term_dict, data_dict);
        apply_copies(&direct, data_dict)
    }
}

} // verus!
