//! Positional vectors: what one field of one document holds.

use vstd::prelude::*;
use crate::ids::TermId;
use crate::scalar::Scalar;
use crate::term_dictionary::TermDictionary;
use crate::table::IdTable;

verus! {

/// One token of a field, as the caller supplies it.
#[derive(Debug, Clone)]
pub struct Token {
    pub term: String,
    /// The token's place in the field, counted from one.
    pub position: usize,
    /// The bit pattern of the token's single-precision weight.
    pub weight: u32,
}

/// What a positional vector holds for one term.
#[derive(Debug)]
pub struct TSVectorTerm {
    /// The positions at which the term stands, in the order given.
    pub positions: Vec<usize>,
    pub weight: Scalar,
}

/// The mathematical value of a [`TSVectorTerm`].
pub ghost struct TermEntry {
    pub positions: Seq<usize>,
    pub weight: Scalar,
}

impl View for TSVectorTerm {
    type V = TermEntry;

    open spec fn view(&self) -> TermEntry {
        TermEntry { positions: self.positions@, weight: self.weight }
    }
}

/// The mathematical value of a [`TSVector`].
pub ghost struct TSVectorView {
    pub length: nat,
    pub terms: Map<u32, TermEntry>,
}

/// Each position moved up by `by`.
pub open spec fn shifted(positions: Seq<usize>, by: nat) -> Seq<usize> {
    Seq::new(positions.len(), |i: int| (positions[i] + by) as usize)
}

/// What [`TSVector::boost`] makes of a vector: every weight multiplied by
/// the factor.
pub open spec fn boosted(v: TSVectorView, factor: Scalar) -> TSVectorView {
    TSVectorView {
        length: v.length,
        terms: Map::new(
            |t: u32| v.terms.contains_key(t),
            |t: u32|
                TermEntry {
                    positions: v.terms[t].positions,
                    weight: Scalar::mul_spec(v.terms[t].weight, factor),
                },
        ),
    }
}

/// What [`TSVector::append`] makes of a vector `a` when `b` is appended: the
/// positions of `b` follow, moved up by the length of `a`; the weights of a
/// term that both hold are added; the lengths are added.
pub open spec fn appended(a: TSVectorView, b: TSVectorView) -> TSVectorView {
    TSVectorView {
        length: a.length + b.length,
        terms: Map::new(
            |t: u32| a.terms.contains_key(t) || b.terms.contains_key(t),
            |t: u32|
                if !b.terms.contains_key(t) {
                    a.terms[t]
                } else if a.terms.contains_key(t) {
                    TermEntry {
                        positions: a.terms[t].positions + shifted(b.terms[t].positions, a.length),
                        weight: Scalar::add_spec(a.terms[t].weight, b.terms[t].weight),
                    }
                } else {
                    TermEntry {
                        positions: shifted(b.terms[t].positions, a.length),
                        weight: b.terms[t].weight,
                    }
                },
        ),
    }
}

/// Whether no position of `b` leaves the machine's range when it is moved
/// up by `by`.
pub open spec fn shift_fits(b: TSVectorView, by: nat) -> bool {
    forall|t: u32, j: int|
        b.terms.contains_key(t) && 0 <= j < b.terms[t].positions.len() ==> (
        #[trigger] b.terms[t].positions[j]) + by <= usize::MAX
}

/// The positions of the first `n` tokens whose term has the identifier
/// `term`, in the tokens' order.
pub open spec fn token_positions(
    ids: Map<Seq<char>, TermId>,
    tokens: Seq<Token>,
    n: nat,
    term: u32,
) -> Seq<usize>
    decreases n,
{
    if n == 0 || n > tokens.len() {
        Seq::empty()
    } else {
        let rest = token_positions(ids, tokens, (n - 1) as nat, term);
        if ids[tokens[n - 1].term@].0 == term {
            rest.push(tokens[n - 1].position)
        } else {
            rest
        }
    }
}

/// Zero, plus the weight of each of the first `n` tokens whose term has the
/// identifier `term`, in the tokens' order.
pub open spec fn token_weight(
    ids: Map<Seq<char>, TermId>,
    tokens: Seq<Token>,
    n: nat,
    term: u32,
) -> Scalar
    decreases n,
{
    if n == 0 || n > tokens.len() {
        Scalar::zero_spec()
    } else {
        let rest = token_weight(ids, tokens, (n - 1) as nat, term);
        if ids[tokens[n - 1].term@].0 == term {
            Scalar::add_spec(rest, Scalar::Bits(tokens[n - 1].weight))
        } else {
            rest
        }
    }
}

/// Whether one of the first `n` tokens has a term with the identifier
/// `term`.
pub open spec fn token_has(ids: Map<Seq<char>, TermId>, tokens: Seq<Token>, n: nat, term: u32)
    -> bool {
    exists|i: int| 0 <= i < n && i < tokens.len() && ids[(#[trigger] tokens[i]).term@].0 == term
}

/// The names that a dictionary holds after the terms of the first `n`
/// tokens are interned in order.
pub open spec fn interned(names: Seq<Seq<char>>, tokens: Seq<Token>, n: nat) -> Seq<Seq<char>>
    decreases n,
{
    if n == 0 || n > tokens.len() {
        names
    } else {
        let rest = interned(names, tokens, (n - 1) as nat);
        if rest.contains(tokens[n - 1].term@) {
            rest
        } else {
            rest.push(tokens[n - 1].term@)
        }
    }
}

/// What a vector made from tokens holds, by the identifiers `ids`.
pub open spec fn from_tokens_view(ids: Map<Seq<char>, TermId>, tokens: Seq<Token>)
    -> TSVectorView {
    TSVectorView {
        length: tokens.len(),
        terms: Map::new(
            |t: u32| token_has(ids, tokens, tokens.len(), t),
            |t: u32|
                TermEntry {
                    positions: token_positions(ids, tokens, tokens.len(), t),
                    weight: token_weight(ids, tokens, tokens.len(), t),
                },
        ),
    }
}

/// A field's terms with their positions and weights, and the field's length
/// in tokens.
pub struct TSVector {
    pub length: usize,
    /// The entries, keyed by term.
    pub terms: IdTable<TSVectorTerm>,
}

impl Default for TSVectorTerm {
    /// No positions, and the weight zero.
    fn default() -> (r: TSVectorTerm)
        ensures
            r@ == (TermEntry { positions: Seq::empty(), weight: Scalar::zero_spec() }),
    {
        TSVectorTerm { positions: Vec::new(), weight: Scalar::zero() }
    }
}

impl Default for TSVector {
    /// The vector of a field without tokens.
    fn default() -> (r: TSVector)
        ensures
            r.wf(),
            r.length == 0,
            forall|t: u32| !r.has(t),
            r@.terms == Map::<u32, TermEntry>::empty(),
    {
        TSVector::new()
    }
}

impl View for TSVector {
    type V = TSVectorView;

    open spec fn view(&self) -> TSVectorView {
        TSVectorView {
            length: self.length as nat,
            terms: Map::new(
                |t: u32| self.terms.map().contains_key(t),
                |t: u32| self.terms.map()[t]@,
            ),
        }
    }
}

impl TSVector {
    /// The vector's invariant.
    pub open spec fn wf(&self) -> bool {
        self.terms.wf()
    }

    /// Whether the vector holds `term`.
    pub open spec fn has(&self, term: u32) -> bool {
        self.terms.map().contains_key(term)
    }

    /// What the vector holds for `term`.
    pub open spec fn entry(&self, term: u32) -> TermEntry {
        self.terms.map()[term]@
    }

    /// The vector of a field without tokens.
    pub fn new() -> (r: TSVector)
        ensures
            r.wf(),
            r.length == 0,
            forall|t: u32| !r.has(t),
            r@.terms == Map::<u32, TermEntry>::empty(),
    {
        let r = TSVector { length: 0, terms: IdTable::new() };
        assert(r@.terms =~= Map::<u32, TermEntry>::empty());
        r
    }

    /// A copy of the vector.
    pub fn duplicate(&self) -> (r: TSVector)
        requires
            self.wf(),
        ensures
            r.wf(),
            r@ == self@,
            r.terms.keys() == self.terms.keys(),
    {
        let mut terms: IdTable<TSVectorTerm> = IdTable::new();
        let n = self.terms.len();
        let ghost keys = self.terms.keys();
        proof {
            self.terms.lemma_wf();
        }
        let mut i: usize = 0;
        while i < n
            invariant
                self.wf(),
                keys == self.terms.keys(),
                keys.no_duplicates(),
                n == keys.len(),
                i <= n,
                terms.wf(),
                terms.keys() == keys.take(i as int),
                forall|t: u32| #[trigger]
                    terms.map().contains_key(t) ==> self.terms.map().contains_key(t)
                        && terms.map()[t]@ == self.terms.map()[t]@,
                forall|t: u32| #[trigger]
                    terms.map().contains_key(t) <==> keys.take(i as int).contains(t),
            decreases n - i,
        {
            let key = self.terms.key(i);
            let entry = self.terms.value(i);
            let mut positions: Vec<usize> = Vec::new();
            let mut j: usize = 0;
            while j < entry.positions.len()
                invariant
                    j <= entry.positions.len(),
                    positions@ == entry.positions@.take(j as int),
                decreases entry.positions.len() - j,
            {
                positions.push(entry.positions[j]);
                assert(positions@ =~= entry.positions@.take(j + 1));
                j += 1;
            }
            assert(entry.positions@.take(entry.positions.len() as int) =~= entry.positions@);
            proof {
                assert(keys.take(i + 1) =~= keys.take(i as int).push(key));
                if keys.take(i as int).contains(key) {
                    let k = choose|k: int| 0 <= k < i && keys.take(i as int)[k] == key;
                    assert(keys[k] == keys[i as int]);
                }
                assert forall|t: u32| keys.take(i + 1).contains(t) <==> (t == key || keys.take(
                    i as int,
                ).contains(t)) by {
                    if keys.take(i as int).contains(t) {
                        let k = choose|k: int| 0 <= k < i && keys.take(i as int)[k] == t;
                        assert(keys.take(i + 1)[k] == t);
                    }
                    assert(keys.take(i + 1)[i as int] == key);
                }
            }
            terms.push(key, TSVectorTerm { positions, weight: entry.weight.duplicate() });
            i += 1;
        }
        let r = TSVector { length: self.length, terms };
        proof {
            assert(keys.take(n as int) =~= keys);
            assert forall|t: u32| self.terms.map().contains_key(t) == keys.contains(t) by {}
            assert(r@.terms =~= self@.terms);
        }
        r
    }

    /// Multiplies the weight of every term by `factor`.
    pub fn boost(&mut self, factor: &Scalar)
        requires
            old(self).wf(),
        ensures
            final(self).wf(),
            final(self)@ == boosted(old(self)@, *factor),
            final(self).terms.keys() == old(self).terms.keys(),
    {
        let n = self.terms.len();
        let ghost keys = self.terms.keys();
        let ghost start = self.terms.map();
        proof {
            self.terms.lemma_wf();
        }
        let mut i: usize = 0;
        while i < n
            invariant
                self.terms.wf(),
                self.length == old(self).length,
                keys == self.terms.keys(),
                keys == old(self).terms.keys(),
                keys.no_duplicates(),
                start == old(self).terms.map(),
                n == keys.len(),
                i <= n,
                forall|t: u32| #[trigger]
                    self.terms.map().contains_key(t) <==> start.contains_key(t),
                forall|t: u32|
                    #![trigger self.terms.map()[t]]
                    start.contains_key(t) ==> self.terms.map()[t]@ == (if keys.take(
                        i as int,
                    ).contains(t) {
                        TermEntry {
                            positions: start[t]@.positions,
                            weight: Scalar::mul_spec(start[t]@.weight, *factor),
                        }
                    } else {
                        start[t]@
                    }),
            decreases n - i,
        {
            let ghost before = self.terms.map();
            let ghost key = keys[i as int];
            proof {
                self.terms.lemma_wf();
                assert(keys.contains(key));
                assert(before.contains_key(key) && start.contains_key(key));
                assert(keys.take(i + 1) =~= keys.take(i as int).push(key));
                if keys.take(i as int).contains(key) {
                    let k = choose|k: int| 0 <= k < i && keys.take(i as int)[k] == key;
                    assert(keys[k] == keys[i as int]);
                }
                assert forall|t: u32| keys.take(i + 1).contains(t) <==> (t == key || keys.take(
                    i as int,
                ).contains(t)) by {
                    if keys.take(i as int).contains(t) {
                        let k = choose|k: int| 0 <= k < i && keys.take(i as int)[k] == t;
                        assert(keys.take(i + 1)[k] == t);
                    }
                    assert(keys.take(i + 1)[i as int] == key);
                }
                assert(before[key]@ == start[key]@);
            }
            let entry = self.terms.value_mut(i);
            let mut weight = Scalar::zero();
            core::mem::swap(&mut entry.weight, &mut weight);
            entry.weight = Scalar::product(weight, factor.duplicate());
            proof {
                assert forall|t: u32| #[trigger]
                    self.terms.map().contains_key(t) <==> start.contains_key(t) by {
                    assert(before.contains_key(t) <==> start.contains_key(t));
                }
            }
            i += 1;
        }
        proof {
            assert(keys.take(n as int) =~= keys);
            assert forall|t: u32| start.contains_key(t) == keys.contains(t) by {}
            assert(self@.terms =~= boosted(old(self)@, *factor).terms);
        }
    }

    /// Appends `other`: its positions follow those of this vector, moved up
    /// by this vector's length.
    pub fn append(&mut self, other: &TSVector)
        requires
            old(self).wf(),
            other.wf(),
            old(self).length + other.length <= usize::MAX,
            shift_fits(other@, old(self).length as nat),
        ensures
            final(self).wf(),
            final(self)@ == appended(old(self)@, other@),
    {
        let n = other.terms.len();
        let ghost keys = other.terms.keys();
        let ghost start = self.terms.map();
        let ghost goal = appended(old(self)@, other@);
        proof {
            other.terms.lemma_wf();
        }
        let mut i: usize = 0;
        while i < n
            invariant
                self.terms.wf(),
                other.wf(),
                self.length == old(self).length,
                self.length + other.length <= usize::MAX,
                shift_fits(other@, self.length as nat),
                keys == other.terms.keys(),
                keys.no_duplicates(),
                start == old(self).terms.map(),
                goal == appended(old(self)@, other@),
                n == keys.len(),
                i <= n,
                forall|t: u32| #[trigger]
                    self.terms.map().contains_key(t) <==> start.contains_key(t) || keys.take(
                        i as int,
                    ).contains(t),
                forall|t: u32|
                    #![trigger self.terms.map()[t]]
                    self.terms.map().contains_key(t) ==> self.terms.map()[t]@ == (if keys.take(
                        i as int,
                    ).contains(t) {
                        goal.terms[t]
                    } else {
                        start[t]@
                    }),
            decreases n - i,
        {
            let term = other.terms.key(i);
            let info = other.terms.value(i);
            let ghost before = self.terms.map();
            proof {
                other.terms.lemma_wf();
                assert(keys.contains(term));
                assert(other@.terms.contains_key(term));
                assert(other@.terms[term] == info@);
                assert(keys.take(i + 1) =~= keys.take(i as int).push(term));
                if keys.take(i as int).contains(term) {
                    let k = choose|k: int| 0 <= k < i && keys.take(i as int)[k] == term;
                    assert(keys[k] == keys[i as int]);
                }
                assert forall|t: u32| keys.take(i + 1).contains(t) <==> (t == term || keys.take(
                    i as int,
                ).contains(t)) by {
                    if keys.take(i as int).contains(t) {
                        let k = choose|k: int| 0 <= k < i && keys.take(i as int)[k] == t;
                        assert(keys.take(i + 1)[k] == t);
                    }
                    assert(keys.take(i + 1)[i as int] == term);
                }
            }
            let mut moved: Vec<usize> = Vec::new();
            let mut j: usize = 0;
            while j < info.positions.len()
                invariant
                    j <= info.positions.len(),
                    other@.terms.contains_key(term),
                    other@.terms[term] == info@,
                    shift_fits(other@, self.length as nat),
                    moved@ == shifted(info.positions@, self.length as nat).take(j as int),
                decreases info.positions.len() - j,
            {
                assert(other@.terms[term].positions[j as int] + self.length <= usize::MAX);
                moved.push(self.length + info.positions[j]);
                assert(moved@ =~= shifted(info.positions@, self.length as nat).take(j + 1));
                j += 1;
            }
            assert(moved@ =~= shifted(info.positions@, self.length as nat));
            match self.terms.find(term) {
                Some(slot) => {
                    assert(before[term]@ == start[term]@);
                    let entry = self.terms.value_mut(slot);
                    entry.positions.append(&mut moved);
                    let mut weight = Scalar::zero();
                    core::mem::swap(&mut entry.weight, &mut weight);
                    entry.weight = Scalar::sum(weight, info.weight.duplicate());
                },
                None => {
                    self.terms.push(
                        term,
                        TSVectorTerm { positions: moved, weight: info.weight.duplicate() },
                    );
                },
            }
            proof {
                let now = self.terms.map();
                assert(now.contains_key(term));
                assert(now[term]@ == goal.terms[term]);
                assert forall|t: u32| #[trigger]
                    now.contains_key(t) <==> start.contains_key(t) || keys.take(i + 1).contains(
                        t,
                    ) by {
                    assert(before.contains_key(t) <==> start.contains_key(t) || keys.take(
                        i as int,
                    ).contains(t));
                }
                assert forall|t: u32|
                    #![trigger self.terms.map()[t]]
                    now.contains_key(t) implies now[t]@ == (if keys.take(i + 1).contains(t) {
                        goal.terms[t]
                    } else {
                        start[t]@
                    }) by {
                    if t != term {
                        assert(before.contains_key(t));
                        assert(now[t] == before[t]);
                    }
                }
            }
            i += 1;
        }
        self.length = self.length + other.length;
        proof {
            assert(keys.take(n as int) =~= keys);
            assert forall|t: u32| other.terms.map().contains_key(t) == keys.contains(t) by {}
            assert(self@.terms =~= goal.terms);
        }
    }

    /// This vector with `other` appended, as a new vector.
    pub fn add(&self, other: &TSVector) -> (r: TSVector)
        requires
            self.wf(),
            other.wf(),
            self.length + other.length <= usize::MAX,
            shift_fits(other@, self.length as nat),
        ensures
            r.wf(),
            r@ == appended(self@, other@),
    {
        let mut new = self.duplicate();
        new.append(other);
        new
    }

    /// The vector of a field's tokens. Each token's term is interned, its
    /// position is recorded under the term, and its weight is added to the
    /// term's weight. The length is the number of tokens.
    pub fn from_tokens(tokens: &Vec<Token>, dict: &mut TermDictionary) -> (r: TSVector)
        requires
            old(dict).wf(),
            old(dict).next_id + tokens.len() <= u32::MAX,
        ensures
            final(dict).wf(),
            final(dict).names() == interned(old(dict).names(), tokens@, tokens@.len()),
            final(dict).next_id <= old(dict).next_id + tokens.len(),
            forall|name: Seq<char>|
                #![trigger old(dict).has(name)]
                old(dict).has(name) ==> final(dict).has(name) && final(dict).id_of(name) == old(
                    dict,
                ).id_of(name),
            forall|i: int| 0 <= i < tokens@.len() ==> final(dict).has((#[trigger] tokens@[i]).term@),
            r.wf(),
            r@ == from_tokens_view(final(dict).terms@, tokens@),
    {
        let mut terms: IdTable<TSVectorTerm> = IdTable::new();
        let n = tokens.len();
        let mut k: usize = 0;
        while k < n
            invariant
                n == tokens@.len(),
                k <= n,
                old(dict).next_id + n <= u32::MAX,
                dict.wf(),
                dict.next_id <= old(dict).next_id + k,
                dict.names() == interned(old(dict).names(), tokens@, k as nat),
                forall|name: Seq<char>|
                    #![trigger old(dict).has(name)]
                    old(dict).has(name) ==> dict.has(name) && dict.id_of(name) == old(
                        dict,
                    ).id_of(name),
                forall|i: int| 0 <= i < k ==> dict.has((#[trigger] tokens@[i]).term@),
                terms.wf(),
                forall|t: u32| #[trigger]
                    terms.map().contains_key(t) <==> token_has(dict.terms@, tokens@, k as nat, t),
                forall|t: u32|
                    #![trigger terms.map()[t]]
                    terms.map().contains_key(t) ==> terms.map()[t]@ == (TermEntry {
                        positions: token_positions(dict.terms@, tokens@, k as nat, t),
                        weight: token_weight(dict.terms@, tokens@, k as nat, t),
                    }),
            decreases n - k,
        {
            let token = &tokens[k];
            let ghost ids = dict.terms@;
            let ghost names = dict.names();
            let ghost before = terms.map();
            proof {
                lemma_names(*dict, token.term@);
                assert(dict.next_id == names.len());
            }
            let id = dict.get_or_insert(token.term.as_str());
            proof {
                let now = dict.terms@;
                assert forall|i: int| 0 <= i < k implies now[(#[trigger] tokens@[i]).term@]
                    == ids[tokens@[i].term@] by {
                    assert(ids.contains_key(tokens@[i].term@));
                }
                assert forall|t: u32| true implies token_positions(now, tokens@, k as nat, t)
                    == token_positions(ids, tokens@, k as nat, t) && token_weight(
                    now,
                    tokens@,
                    k as nat,
                    t,
                ) == token_weight(ids, tokens@, k as nat, t) && token_has(
                    now,
                    tokens@,
                    k as nat,
                    t,
                ) == token_has(ids, tokens@, k as nat, t) by {
                    lemma_same_ids(ids, now, tokens@, k as nat, t);
                }
                assert forall|t: u32|
                    token_has(now, tokens@, (k + 1) as nat, t) <==> t == id.0 || token_has(
                        now,
                        tokens@,
                        k as nat,
                        t,
                    ) by {
                    if token_has(now, tokens@, (k + 1) as nat, t) {
                        let i = choose|i: int|
                            0 <= i < k + 1 && i < tokens@.len() && now[(
                            #[trigger] tokens@[i]).term@].0 == t;
                        if i < k {
                            assert(token_has(now, tokens@, k as nat, t));
                        }
                    }
                    if token_has(now, tokens@, k as nat, t) {
                        let i = choose|i: int|
                            0 <= i < k && i < tokens@.len() && now[(#[trigger] tokens@[i]).term@].0
                                == t;
                        assert(token_has(now, tokens@, (k + 1) as nat, t));
                    }
                    if t == id.0 {
                        assert(now[tokens@[k as int].term@].0 == t);
                        assert(token_has(now, tokens@, (k + 1) as nat, t));
                    }
                }
                assert forall|name: Seq<char>|
                    #![trigger old(dict).has(name)]
                    old(dict).has(name) implies dict.has(name) && dict.id_of(name) == old(
                    dict,
                ).id_of(name) by {
                    assert(ids.contains_key(name));
                }
                assert(dict.names().len() <= names.len() + 1);
            }
            match terms.find(id.0) {
                Some(slot) => {
                    let entry = terms.value_mut(slot);
                    entry.positions.push(token.position);
                    let mut weight = Scalar::zero();
                    core::mem::swap(&mut entry.weight, &mut weight);
                    entry.weight = Scalar::sum(weight, Scalar::Bits(token.weight));
                },
                None => {
                    let mut positions: Vec<usize> = Vec::new();
                    positions.push(token.position);
                    proof {
                        lemma_absent(dict.terms@, tokens@, k as nat, id.0);
                        assert(positions@ =~= Seq::<usize>::empty().push(token.position));
                    }
                    terms.push(
                        id.0,
                        TSVectorTerm {
                            positions,
                            weight: Scalar::sum(Scalar::zero(), Scalar::Bits(token.weight)),
                        },
                    );
                },
            }
            proof {
                let now = terms.map();
                assert forall|t: u32|
                    #![trigger terms.map()[t]]
                    now.contains_key(t) implies now[t]@ == (TermEntry {
                        positions: token_positions(dict.terms@, tokens@, (k + 1) as nat, t),
                        weight: token_weight(dict.terms@, tokens@, (k + 1) as nat, t),
                    }) by {
                    if t != id.0 {
                        assert(before.contains_key(t));
                        assert(now[t] == before[t]);
                    }
                }
                assert forall|t: u32| #[trigger]
                    now.contains_key(t) <==> token_has(dict.terms@, tokens@, (k + 1) as nat, t) by {
                    assert(before.contains_key(t) <==> token_has(ids, tokens@, k as nat, t));
                }
            }
            k += 1;
        }
        let r = TSVector { length: n, terms };
        proof {
            assert(r@.terms =~= from_tokens_view(dict.terms@, tokens@).terms);
        }
        r
    }
}

/// A well-formed dictionary holds a name just when the name is among its
/// names.
pub proof fn lemma_names(dict: TermDictionary, name: Seq<char>)
    requires
        dict.wf(),
    ensures
        dict.has(name) <==> dict.names().contains(name),
{
    if dict.has(name) {
        let i = dict.terms@[name].0 as int;
        assert(dict.names()[i] == name);
    }
    if dict.names().contains(name) {
        let i = choose|i: int| 0 <= i < dict.names().len() && dict.names()[i] == name;
        assert(dict.terms@.contains_key(dict.term_ids@[i]@));
    }
}

/// What is gathered from the first `n` tokens depends only on the
/// identifiers of their terms.
pub proof fn lemma_same_ids(
    a: Map<Seq<char>, TermId>,
    b: Map<Seq<char>, TermId>,
    tokens: Seq<Token>,
    n: nat,
    term: u32,
)
    requires
        n <= tokens.len(),
        forall|i: int| 0 <= i < n ==> a[(#[trigger] tokens[i]).term@] == b[tokens[i].term@],
    ensures
        token_positions(a, tokens, n, term) == token_positions(b, tokens, n, term),
        token_weight(a, tokens, n, term) == token_weight(b, tokens, n, term),
        token_has(a, tokens, n, term) == token_has(b, tokens, n, term),
    decreases n,
{
    if n > 0 {
        lemma_same_ids(a, b, tokens, (n - 1) as nat, term);
        assert(a[tokens[n - 1].term@] == b[tokens[n - 1].term@]);
    }
    if token_has(a, tokens, n, term) {
        let i = choose|i: int|
            0 <= i < n && i < tokens.len() && a[(#[trigger] tokens[i]).term@].0 == term;
        assert(b[tokens[i].term@].0 == term);
    }
    if token_has(b, tokens, n, term) {
        let i = choose|i: int|
            0 <= i < n && i < tokens.len() && b[(#[trigger] tokens[i]).term@].0 == term;
        assert(a[tokens[i].term@].0 == term);
    }
}

/// Of a term that none of the first `n` tokens has, nothing is gathered.
pub proof fn lemma_absent(ids: Map<Seq<char>, TermId>, tokens: Seq<Token>, n: nat, term: u32)
    requires
        n <= tokens.len(),
        !token_has(ids, tokens, n, term),
    ensures
        token_positions(ids, tokens, n, term) == Seq::<usize>::empty(),
        token_weight(ids, tokens, n, term) == Scalar::zero_spec(),
    decreases n,
{
    if n > 0 {
        assert(ids[tokens[n - 1].term@].0 != term);
        assert forall|i: int| 0 <= i < n - 1 && i < tokens.len() implies ids[(
        #[trigger] tokens[i]).term@].0 != term by {}
        lemma_absent(ids, tokens, (n - 1) as nat, term);
    }
}

} // verus!
