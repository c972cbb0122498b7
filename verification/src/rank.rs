//! Ranking: which documents a query can match, what each of their scores is
//! made of, and the order of the scored documents.
//!
//! The score of a document for a query is the sum, over the terms of the
//! query, of `tf * idf`, where `tf` is the quotient of a `TermFrequency` and
//! `idf` is the decimal logarithm of the quotient of a `Rarity`.
//!
//! This module works out the counts and decides what the counts alone decide.
//! A term that does not occur in a document has the frequency zero, and a
//! term that all documents but one hold has the rarity one, whose logarithm
//! is zero: either adds nothing. So only a document in which some term has a
//! positive weight is scored at all. A document that holds a term while its
//! record counts no distinct terms has no score, and stops the search.
//!
//! The logarithm and the sum are left to the caller of `search_query`, who
//! hands each score over as an integer key that grows with the score.

use crate::indexer::{empty_model, indexed};
use crate::lexer::{terms_of, tokenize};
use crate::model::{count_of, DocumentRecord, Model, ModelView, RecordView};
use crate::table::Table;
use vstd::prelude::*;

verus! {

/// The frequency of a term in a document, as a fraction: `occurrences` over
/// `distinct`. The frequency of a term that does not occur in the document is
/// zero, whatever the document: 0 over 1.
#[derive(Clone, Copy, Debug, PartialEq, Eq, Structural)]
pub struct TermFrequency {
    /// How often the term occurs in the document; zero where it does not.
    pub occurrences: u64,
    /// The number of distinct terms in the document; one for a term that
    /// does not occur.
    pub distinct: u64,
}

/// How rare a term is in the corpus, as a fraction: `documents` over
/// `1 + holders`. The inverse document frequency is its decimal logarithm.
#[derive(Clone, Copy, Debug, PartialEq, Eq, Structural)]
pub struct Rarity {
    /// The number of documents in the index.
    pub documents: usize,
    /// The number of documents that hold the term; zero where none does.
    pub holders: u64,
}

/// What one term of a query adds to the score of one document: the product of
/// the term frequency and the inverse document frequency.
#[derive(Clone, Copy, Debug, PartialEq, Eq, Structural)]
pub struct Weight {
    /// The frequency of the term in the document.
    pub tf: TermFrequency,
    /// The rarity of the term in the corpus.
    pub idf: Rarity,
}

/// A document in which a term of the query has a positive weight, with the
/// weight of each term of the query in it.
#[derive(Debug, PartialEq, Eq)]
pub struct Candidate {
    /// The path of the document.
    pub path: String,
    /// One weight for each term of the query, in the order of the query.
    pub weights: Vec<Weight>,
}

/// Why a search gave no ranking.
#[derive(Clone, Copy, Debug, PartialEq, Eq, Structural)]
pub enum SearchError {
    /// A document holds a term of the query, yet its record counts no
    /// distinct terms: the frequency of the term has no value.
    BrokenRecord,
    /// The score of a document is not a number.
    ScoreNotANumber,
}

/// The frequency of `t` in a document with the record `record`: zero where
/// `t` does not occur in it.
pub open spec fn tf_of(t: Seq<char>, record: RecordView) -> TermFrequency {
    if count_of(record.tf, t) == 0 {
        TermFrequency { occurrences: 0, distinct: 1 }
    } else {
        TermFrequency { occurrences: count_of(record.tf, t), distinct: record.distinct }
    }
}

/// The rarity of `t` among `n` documents with the document frequencies `df`.
pub open spec fn idf_of(t: Seq<char>, n: usize, df: Map<Seq<char>, u64>) -> Rarity {
    Rarity { documents: n, holders: count_of(df, t) }
}

/// The weight of the term `t` in the document with the record `record` of
/// `model`.
pub open spec fn weight_of(t: Seq<char>, record: RecordView, model: ModelView) -> Weight {
    Weight { tf: tf_of(t, record), idf: idf_of(t, model.tfpd.len() as usize, model.df) }
}

/// The weights of `terms`, one by one, in the document with the record
/// `record` of `model`.
pub open spec fn weights_of(terms: Seq<Seq<char>>, record: RecordView, model: ModelView) -> Seq<
    Weight,
> {
    Seq::new(terms.len(), |j: int| weight_of(terms[j], record, model))
}

/// Whether the weight has no value: its term frequency divides by zero.
pub open spec fn undefined(weight: Weight) -> bool {
    weight.tf.distinct == 0
}

/// Whether the weight is positive: the term occurs in the document, and fewer
/// documents hold it than all but one, so that the rarity exceeds one and its
/// logarithm zero. A term that all documents but one hold has a rarity of
/// one, and a weight of zero.
pub open spec fn positive(weight: Weight) -> bool {
    &&& weight.tf.occurrences > 0
    &&& weight.tf.distinct > 0
    &&& weight.idf.documents > weight.idf.holders + 1
}

/// Whether one of `weights` is positive. The score of a document without a
/// positive weight is not positive.
pub open spec fn promising(weights: Seq<Weight>) -> bool {
    exists|j: int| 0 <= j < weights.len() && positive(#[trigger] weights[j])
}

/// Whether one of `weights` has no value.
pub open spec fn unscorable(weights: Seq<Weight>) -> bool {
    exists|j: int| 0 <= j < weights.len() && undefined(#[trigger] weights[j])
}

/// Whether a document of `model` has no score for a query of `terms`: it
/// holds one of them, and its record counts no distinct terms.
pub open spec fn broken(terms: Seq<Seq<char>>, model: ModelView) -> bool {
    exists|path: Seq<char>|
        #![trigger model.tfpd.contains_key(path)]
        model.tfpd.contains_key(path) && unscorable(weights_of(terms, model.tfpd[path], model))
}

/// Whether a term of `terms` has a positive weight in the document with the
/// record `record` of `model`.
#[verifier::opaque]
pub open spec fn has_positive(terms: Seq<Seq<char>>, record: RecordView, model: ModelView) -> bool {
    promising(weights_of(terms, record, model))
}

/// Whether a term of `terms` has a weight without a value in the document
/// with the record `record` of `model`.
#[verifier::opaque]
pub open spec fn has_undefined(terms: Seq<Seq<char>>, record: RecordView, model: ModelView) -> bool {
    unscorable(weights_of(terms, record, model))
}

impl Weight {
    /// Whether the weight has no value.
    pub fn is_undefined(&self) -> (none: bool)
        ensures
            none == undefined(*self),
    {
        self.tf.distinct == 0
    }

    /// Whether the weight is positive.
    pub fn is_positive(&self) -> (some: bool)
        ensures
            some == positive(*self),
    {
        self.tf.occurrences > 0 && self.tf.distinct > 0 && self.idf.holders < u64::MAX
            && self.idf.documents as u64 > self.idf.holders + 1
    }
}

/// The frequency of the term `t` in the document `d`.
pub fn compute_tf(t: &str, d: &DocumentRecord) -> (tf: TermFrequency)
    ensures
        tf == tf_of(t@, d@),
        tf.occurrences == 0 ==> tf.distinct == 1,
{
    let occurrences: u64 = match d.tf.get(t) {
        Some(count) => *count,
        None => 0,
    };
    if occurrences == 0 {
        TermFrequency { occurrences: 0, distinct: 1 }
    } else {
        TermFrequency { occurrences, distinct: d.distinct }
    }
}

/// The rarity of the term `t` among `n` documents with the document
/// frequencies `df`.
pub fn compute_idf(t: &str, n: usize, df: &Table<u64>) -> (idf: Rarity)
    ensures
        idf == idf_of(t@, n, df@),
{
    let holders: u64 = match df.get(t) {
        Some(count) => *count,
        None => 0,
    };
    Rarity { documents: n, holders }
}

/// Whether `found` answers a query of `terms` against `model`: it holds the
/// documents of the model in which one of the terms has a positive weight,
/// each of them once and with its weights, and no others.
pub open spec fn answers(terms: Seq<Seq<char>>, model: ModelView, found: Seq<Candidate>) -> bool {
    &&& forall|i: int|
        0 <= i < found.len() ==> {
            let path = (#[trigger] found[i]).path@;
            &&& model.tfpd.contains_key(path)
            &&& promising(weights_of(terms, model.tfpd[path], model))
            &&& found[i].weights@ == weights_of(terms, model.tfpd[path], model)
        }
    &&& forall|path: Seq<char>|
        #![trigger model.tfpd.contains_key(path)]
        model.tfpd.contains_key(path) && promising(weights_of(terms, model.tfpd[path], model))
            ==> exists|i: int| 0 <= i < found.len() && (#[trigger] found[i]).path@ == path
    &&& forall|i: int, j: int|
        0 <= i < j < found.len() ==> (#[trigger] found[i]).path@ != (#[trigger] found[j]).path@
}

/// A query none of whose terms occurs in any document finds nothing.
pub proof fn lemma_absent_terms_find_nothing(
    terms: Seq<Seq<char>>,
    model: ModelView,
    found: Seq<Candidate>,
)
    requires
        answers(terms, model, found),
        forall|path: Seq<char>, j: int|
            model.tfpd.contains_key(path) && 0 <= j < terms.len() ==> #[trigger] count_of(
                model.tfpd[path].tf,
                terms[j],
            ) == 0,
    ensures
        found.len() == 0,
{
    if found.len() > 0 {
        let path = found[0].path@;
        let weights = weights_of(terms, model.tfpd[path], model);
        let j = choose|j: int| 0 <= j < weights.len() && positive(#[trigger] weights[j]);
        assert(count_of(model.tfpd[path].tf, terms[j]) == 0);
    }
}

/// A query each of whose terms is held by all documents, or by all but one,
/// finds nothing: no such term has a positive weight.
pub proof fn lemma_common_terms_find_nothing(
    terms: Seq<Seq<char>>,
    model: ModelView,
    found: Seq<Candidate>,
)
    requires
        answers(terms, model, found),
        forall|j: int|
            0 <= j < terms.len() ==> #[trigger] count_of(model.df, terms[j]) + 1
                >= model.tfpd.len() as usize,
    ensures
        found.len() == 0,
{
    if found.len() > 0 {
        let path = found[0].path@;
        let weights = weights_of(terms, model.tfpd[path], model);
        let j = choose|j: int| 0 <= j < weights.len() && positive(#[trigger] weights[j]);
        assert(count_of(model.df, terms[j]) + 1 >= model.tfpd.len() as usize);
    }
}

/// A query without terms finds nothing.
pub proof fn lemma_empty_query_finds_nothing(model: ModelView, found: Seq<Candidate>)
    requires
        answers(Seq::empty(), model, found),
    ensures
        found.len() == 0,
{
    if found.len() > 0 {
        let path = found[0].path@;
        assert(promising(weights_of(Seq::empty(), model.tfpd[path], model)));
    }
}

/// A query against an index without documents finds nothing.
pub proof fn lemma_empty_index_finds_nothing(
    terms: Seq<Seq<char>>,
    model: ModelView,
    found: Seq<Candidate>,
)
    requires
        answers(terms, model, found),
        model.tfpd == Map::<Seq<char>, RecordView>::empty(),
    ensures
        found.len() == 0,
{
    if found.len() > 0 {
        assert(model.tfpd.contains_key(found[0].path@));
    }
}

/// A query against an index that was built from no documents finds nothing.
pub proof fn lemma_empty_corpus_finds_nothing(terms: Seq<Seq<char>>, found: Seq<Candidate>)
    requires
        answers(terms, indexed(Seq::empty()), found),
    ensures
        indexed(Seq::empty()) == empty_model(),
        found.len() == 0,
{
    lemma_empty_index_finds_nothing(terms, indexed(Seq::empty()), found);
}

/// A ranking holds only documents whose key is positive, and none of them
/// twice; without a limit it holds all of them.
pub proof fn lemma_ranking_is_positive(keys: Seq<u32>, limit: Option<usize>, order: Seq<usize>)
    requires
        ranks(keys, keys.len() as int, limit, order),
    ensures
        forall|k: int| 0 <= k < order.len() ==> keys[#[trigger] order[k] as int] > 0,
        order.no_duplicates(),
        limit is None ==> forall|i: int|
            0 <= i < keys.len() && #[trigger] keys[i] > 0 ==> order.contains(i as usize),
        (forall|i: int| 0 <= i < keys.len() ==> #[trigger] keys[i] == 0) ==> order.len() == 0,
{
    assert forall|a: int, b: int| 0 <= a < order.len() && 0 <= b < order.len() && a != b implies order[a]
        != order[b] by {
        if a < b {
            assert(order[a] != order[b]);
        } else {
            assert(order[b] != order[a]);
        }
    }
    if order.len() > 0 {
        assert(keys[order[0] as int] > 0);
    }
}

/// The weights of `terms` in the document with the record `record`, whether
/// one of them is positive, and whether one of them has no value.
fn weigh(terms: &Vec<String>, record: &DocumentRecord, model: &Model) -> (weighed: (
    Vec<Weight>,
    bool,
    bool,
))
    ensures
        weighed.0@ == weights_of(terms.deep_view(), record@, model@),
        weighed.1 == has_positive(terms.deep_view(), record@, model@),
        weighed.2 == has_undefined(terms.deep_view(), record@, model@),
{
    reveal(has_positive);
    reveal(has_undefined);
    let ghost all = terms.deep_view();
    let ghost target = weights_of(all, record@, model@);
    let n = model.len();
    let mut weights: Vec<Weight> = Vec::new();
    let mut some = false;
    let mut none = false;
    let mut j: usize = 0;
    while j < terms.len()
        invariant
            j <= terms.len(),
            all == terms.deep_view(),
            n == model@.tfpd.len(),
            target == weights_of(all, record@, model@),
            weights@ =~= target.take(j as int),
            some <==> exists|k: int| 0 <= k < j && positive(#[trigger] target[k]),
            none <==> exists|k: int| 0 <= k < j && undefined(#[trigger] target[k]),
        decreases terms.len() - j,
    {
        let term = &terms[j];
        assert(term@ == all[j as int]);
        let weight = Weight {
            tf: compute_tf(term.as_str(), record),
            idf: compute_idf(term.as_str(), n, &model.df),
        };
        assert(weight == target[j as int]);
        if weight.is_positive() {
            some = true;
        }
        if weight.is_undefined() {
            none = true;
        }
        weights.push(weight);
        j += 1;
    }
    assert(weights@ =~= target);
    (weights, some, none)
}

/// The documents of `model` in which a term of `query` has a positive weight,
/// each with the weights that make up its score. They come in no particular
/// order.
///
/// A document without a positive weight is left out: its score is not
/// positive. There is no answer where a document holds a term of the query
/// and its record counts no distinct terms.
pub fn candidates(query: &[char], model: &Model) -> (outcome: Result<Vec<Candidate>, SearchError>)
    ensures
        outcome is Err <==> broken(terms_of(query@), model@),
        outcome matches Ok(found) ==> answers(terms_of(query@), model@, found@),
        outcome matches Err(error) ==> error == SearchError::BrokenRecord,
{
    let terms = tokenize(query);
    let ghost all = terms_of(query@);
    let n = model.tfpd.len();
    let ghost paths = model.tfpd.keys();
    let ghost records = model@.tfpd;
    assert(records.dom() =~= model.tfpd@.dom());
    let mut found: Vec<Candidate> = Vec::new();
    let mut d: usize = 0;
    while d < n
        invariant
            d <= n,
            n == paths.len(),
            paths == model.tfpd.keys(),
            records == model@.tfpd,
            model.tfpd.well_formed(),
            all == terms.deep_view(),
            all == terms_of(query@),
            forall|k: int| 0 <= k < d ==> !has_undefined(all, records[#[trigger] paths[k]], model@),
            forall|i: int|
                0 <= i < found.len() ==> {
                    let path = (#[trigger] found[i]).path@;
                    &&& records.contains_key(path)
                    &&& has_positive(all, records[path], model@)
                    &&& found[i].weights@ == weights_of(all, records[path], model@)
                    &&& exists|k: int| 0 <= k < d && paths[k] == path
                },
            forall|k: int|
                0 <= k < d && has_positive(all, records[#[trigger] paths[k]], model@) ==> exists|
                    i: int,
                | 0 <= i < found.len() && (#[trigger] found[i]).path@ == paths[k],
            forall|i: int, j: int|
                0 <= i < j < found.len() ==> (#[trigger] found[i]).path@ != (
                #[trigger] found[j]).path@,
        decreases n - d,
    {
        let ghost before = found@;
        let path = model.tfpd.key_at(d);
        let record = match model.tfpd.get(path.as_str()) {
            Some(record) => record,
            None => {
                assert(false);
                return Err(SearchError::BrokenRecord);
            },
        };
        assert(records[path@] == record@);
        let weighed = weigh(&terms, record, model);
        if weighed.2 {
            proof {
                reveal(has_undefined);
                assert(records.contains_key(path@));
                assert(unscorable(weights_of(all, records[path@], model@)));
            }
            return Err(SearchError::BrokenRecord);
        }
        if weighed.1 {
            found.push(Candidate { path: path.clone(), weights: weighed.0 });
            proof {
                assert forall|i: int| 0 <= i < before.len() implies (#[trigger] found[i]).path@
                    != path@ by {
                    assert(found[i] == before[i]);
                    let k = choose|k: int| 0 <= k < d && paths[k] == before[i].path@;
                    assert(paths[k] != paths[d as int]);
                }
                assert(found[before.len() as int].path@ == paths[d as int]);
            }
        }
        proof {
            assert forall|i: int| 0 <= i < found.len() implies exists|k: int|
                0 <= k < d + 1 && paths[k] == (#[trigger] found[i]).path@ by {
                if i < before.len() {
                    assert(found[i] == before[i]);
                    let k = choose|k: int| 0 <= k < d && paths[k] == before[i].path@;
                    assert(paths[k] == found[i].path@);
                } else {
                    assert(paths[d as int] == found[i].path@);
                }
            }
            assert forall|k: int|
                0 <= k < d + 1 && has_positive(
                    all,
                    records[#[trigger] paths[k]],
                    model@,
                ) implies exists|i: int|
                0 <= i < found.len() && (#[trigger] found[i]).path@ == paths[k] by {
                if k < d {
                    let i = choose|i: int|
                        0 <= i < before.len() && (#[trigger] before[i]).path@ == paths[k];
                    assert(found[i] == before[i]);
                    assert(found[i].path@ == paths[k]);
                } else {
                    assert(found[found.len() - 1].path@ == paths[k]);
                }
            }
        }
        d += 1;
    }
    proof {
        reveal(has_positive);
        reveal(has_undefined);
        assert forall|path: Seq<char>|
            #![trigger records.contains_key(path)]
            records.contains_key(path) implies !unscorable(weights_of(all, records[path], model@))
            && (promising(weights_of(all, records[path], model@)) ==> exists|i: int|
            0 <= i < found.len() && (#[trigger] found[i]).path@ == path) by {
            assert(model.tfpd@.contains_key(path));
            assert(paths.contains(path));
            let k = choose|k: int| 0 <= k < paths.len() && paths[k] == path;
            assert(!has_undefined(all, records[paths[k]], model@));
        }
        assert(!broken(all, model@));
    }
    Ok(found)
}

/// Whether `order` ranks the first `upto` of the scored documents.
///
/// A document stands for its position in `keys`, and `keys` holds for each the
/// key of its score: zero for a score that is not positive, else a number that
/// grows with the score. `order` ranks them when it lists positions of
/// positive keys, none of them twice, by falling key; holds at most `limit`
/// of them; and leaves a position with a positive key out only where it is
/// full and everything in it has a key at least as large.
pub open spec fn ranks(keys: Seq<u32>, upto: int, limit: Option<usize>, order: Seq<usize>) -> bool {
    &&& forall|k: int|
        0 <= k < order.len() ==> (#[trigger] order[k]) < upto && keys[order[k] as int] > 0
    &&& forall|a: int, b: int|
        0 <= a < b < order.len() ==> (#[trigger] order[a]) != (#[trigger] order[b])
            && keys[order[a] as int] >= keys[order[b] as int]
    &&& limit matches Some(most) ==> order.len() <= most
    &&& forall|i: int|
        0 <= i < upto && #[trigger] keys[i] > 0 && !order.contains(i as usize) ==> {
            &&& limit == Some(order.len() as usize)
            &&& forall|k: int| 0 <= k < order.len() ==> keys[#[trigger] order[k] as int] >= keys[i]
        }
}

/// Ranks the documents with a positive key by falling key, and keeps the first
/// `limit` of them. Among equal keys the order is not specified.
pub fn rank(keys: &Vec<u32>, limit: Option<usize>) -> (order: Vec<usize>)
    ensures
        ranks(keys@, keys@.len() as int, limit, order@),
{
    let mut order: Vec<usize> = Vec::new();
    let mut i: usize = 0;
    while i < keys.len()
        invariant
            i <= keys.len(),
            ranks(keys@, i as int, limit, order@),
        decreases keys.len() - i,
    {
        let key = keys[i];
        let ghost before = order@;
        if key > 0 {
            let mut at: usize = order.len();
            while at > 0 && keys[order[at - 1]] < key
                invariant
                    at <= order.len(),
                    order@ == before,
                    i < keys.len(),
                    key == keys[i as int],
                    ranks(keys@, i as int, limit, before),
                    forall|k: int| at <= k < order.len() ==> keys[#[trigger] order[k] as int] < key,
                decreases at,
            {
                at -= 1;
            }
            let full = match limit {
                Some(most) => order.len() >= most,
                None => false,
            };
            if full && at == order.len() {
                proof {
                    lemma_rank_skip(keys@, i as int, limit, before);
                }
            } else {
                order.insert(at, i);
                let ghost grown = order@;
                if full {
                    order.pop();
                    proof {
                        assert(order@ =~= grown.drop_last());
                        lemma_rank_replace(keys@, i as int, limit, before, at as int);
                    }
                } else {
                    proof {
                        lemma_rank_insert(keys@, i as int, limit, before, at as int);
                    }
                }
            }
        } else {
            proof {
                lemma_rank_pass(keys@, i as int, limit, before);
            }
        }
        i += 1;
    }
    order
}

/// A document with the key of its score.
#[derive(Debug, PartialEq, Eq)]
pub struct Scored {
    /// The path of the document.
    pub path: String,
    /// The key of the score: zero for a score that is not positive, else a
    /// number that grows with the score.
    pub key: u32,
}

/// The keys of `scored`, one by one.
pub open spec fn keys_of(scored: Seq<Scored>) -> Seq<u32> {
    scored.map_values(|document: Scored| document.key)
}

/// Whether `top` lists the documents of `scored` as `order` ranks them.
pub open spec fn listed(scored: Seq<Scored>, order: Seq<usize>, top: Seq<Scored>) -> bool {
    &&& top.len() == order.len()
    &&& forall|k: int|
        0 <= k < top.len() ==> 0 <= order[k] < scored.len() && (#[trigger] top[k]).path@
            == scored[order[k] as int].path@ && top[k].key == scored[order[k] as int].key
}

/// The documents of `scored` with a positive key, by falling key, `limit` of
/// them at most. Among equal keys the order is not specified.
pub fn top_documents(scored: &Vec<Scored>, limit: Option<usize>) -> (top: Vec<Scored>)
    ensures
        exists|order: Seq<usize>|
            #![trigger listed(scored@, order, top@)]
            ranks(keys_of(scored@), scored@.len() as int, limit, order) && listed(
                scored@,
                order,
                top@,
            ),
{
    let mut keys: Vec<u32> = Vec::new();
    let mut i: usize = 0;
    while i < scored.len()
        invariant
            i <= scored.len(),
            keys@ =~= keys_of(scored@).take(i as int),
        decreases scored.len() - i,
    {
        keys.push(scored[i].key);
        i += 1;
    }
    assert(keys@ =~= keys_of(scored@));
    let order = rank(&keys, limit);
    let mut top: Vec<Scored> = Vec::new();
    let mut k: usize = 0;
    while k < order.len()
        invariant
            k <= order.len(),
            ranks(keys_of(scored@), scored@.len() as int, limit, order@),
            listed(scored@, order@.take(k as int), top@),
        decreases order.len() - k,
    {
        let at = order[k];
        assert(at < scored.len());
        let document = &scored[at];
        top.push(Scored { path: document.path.clone(), key: document.key });
        proof {
            let before = order@.take(k as int);
            let after = order@.take(k + 1);
            assert forall|j: int| 0 <= j < top@.len() implies 0 <= after[j] < scored@.len() && (
            #[trigger] top@[j]).path@ == scored@[after[j] as int].path@ && top@[j].key
                == scored@[after[j] as int].key by {
                if j < k {
                    assert(after[j] == before[j]);
                }
            }
        }
        k += 1;
    }
    assert(order@.take(order.len() as int) =~= order@);
    top
}

/// Whether `scored` holds the documents of `found`, one by one, each with a
/// key that `score` gave for its weights.
pub open spec fn scored_by<F: Fn(&Vec<Weight>) -> Option<u32>>(
    score: F,
    found: Seq<Candidate>,
    scored: Seq<Scored>,
) -> bool {
    &&& scored.len() == found.len()
    &&& forall|i: int|
        0 <= i < found.len() ==> (#[trigger] scored[i]).path@ == found[i].path@ && call_ensures(
            score,
            (&found[i].weights,),
            Some(scored[i].key),
        )
}

/// Whether `top` is the ranking of the documents of `model` for a query of
/// `terms`, by the keys that `score` gave.
///
/// It is what a ranking of the scored candidates lists. So it holds only
/// documents of the model in which a term has a positive weight and whose key
/// is positive, none of them twice, by falling key, and `limit` of them at
/// most.
pub open spec fn is_ranking<F: Fn(&Vec<Weight>) -> Option<u32>>(
    score: F,
    terms: Seq<Seq<char>>,
    model: ModelView,
    limit: Option<usize>,
    top: Seq<Scored>,
) -> bool {
    &&& exists|found: Seq<Candidate>, scored: Seq<Scored>, order: Seq<usize>|
        #![trigger scored_by(score, found, scored), listed(scored, order, top)]
        {
            &&& answers(terms, model, found)
            &&& scored_by(score, found, scored)
            &&& scored.len() <= usize::MAX
            &&& ranks(keys_of(scored), scored.len() as int, limit, order)
            &&& listed(scored, order, top)
        }
    &&& forall|k: int|
        0 <= k < top.len() ==> {
            let path = (#[trigger] top[k]).path@;
            &&& top[k].key > 0
            &&& model.tfpd.contains_key(path)
            &&& promising(weights_of(terms, model.tfpd[path], model))
        }
    &&& forall|a: int, b: int|
        0 <= a < b < top.len() ==> (#[trigger] top[a]).key >= (#[trigger] top[b]).key
            && top[a].path@ != top[b].path@
    &&& limit matches Some(most) ==> top.len() <= most
}

/// The ranking for a query each of whose terms is held by all documents, or
/// by all but one, or by none, is empty, whatever the scores: such a term
/// adds nothing to a score, or nothing positive.
pub proof fn lemma_no_positive_weight_no_ranking<F: Fn(&Vec<Weight>) -> Option<u32>>(
    score: F,
    terms: Seq<Seq<char>>,
    model: ModelView,
    limit: Option<usize>,
    top: Seq<Scored>,
)
    requires
        is_ranking(score, terms, model, limit, top),
        forall|path: Seq<char>, j: int|
            #![trigger model.tfpd[path], terms[j]]
            model.tfpd.contains_key(path) && 0 <= j < terms.len() ==> count_of(
                model.tfpd[path].tf,
                terms[j],
            ) == 0 || count_of(model.df, terms[j]) + 1 >= model.tfpd.len() as usize,
    ensures
        top.len() == 0,
{
    if top.len() > 0 {
        let path = top[0].path@;
        let weights = weights_of(terms, model.tfpd[path], model);
        let j = choose|j: int| 0 <= j < weights.len() && positive(#[trigger] weights[j]);
        assert(model.tfpd[path] == model.tfpd[path] && terms[j] == terms[j]);
        assert(count_of(model.tfpd[path].tf, terms[j]) == 0 || count_of(model.df, terms[j]) + 1
            >= model.tfpd.len() as usize);
    }
}

/// The ranking for a query against an index without documents is empty.
pub proof fn lemma_empty_index_no_ranking<F: Fn(&Vec<Weight>) -> Option<u32>>(
    score: F,
    terms: Seq<Seq<char>>,
    model: ModelView,
    limit: Option<usize>,
    top: Seq<Scored>,
)
    requires
        is_ranking(score, terms, model, limit, top),
        model.tfpd == Map::<Seq<char>, RecordView>::empty(),
    ensures
        top.len() == 0,
{
    if top.len() > 0 {
        assert(model.tfpd.contains_key(top[0].path@));
    }
}

/// The ranking for a query without terms is empty.
pub proof fn lemma_empty_query_no_ranking<F: Fn(&Vec<Weight>) -> Option<u32>>(
    score: F,
    model: ModelView,
    limit: Option<usize>,
    top: Seq<Scored>,
)
    requires
        is_ranking(score, Seq::empty(), model, limit, top),
    ensures
        top.len() == 0,
{
    if top.len() > 0 {
        assert(promising(weights_of(Seq::empty(), model.tfpd[top[0].path@], model)));
    }
}

/// Ranks the documents of `model` for `query`: those with a positive score, by
/// falling score, `limit` of them at most.
///
/// `score` turns the weights of a document into the key of their sum: zero
/// for a sum that is not positive, else a number that grows with the sum, and
/// `None` for a sum that is not a number. It is asked only for documents in
/// which a term of the query has a positive weight; all others are left out
/// unasked, since their score cannot be positive.
///
/// There is no ranking where a document holds a term of the query and its
/// record counts no distinct terms, nor where a score is not a number.
pub fn search_query<F: Fn(&Vec<Weight>) -> Option<u32>>(
    query: &[char],
    model: &Model,
    limit: Option<usize>,
    score: F,
) -> (outcome: Result<Vec<Scored>, SearchError>)
    requires
        forall|weights: &Vec<Weight>| call_requires(score, (weights,)),
    ensures
        broken(terms_of(query@), model@) <==> (outcome matches Err(error) && error
            == SearchError::BrokenRecord),
        outcome matches Err(error) && error == SearchError::ScoreNotANumber ==> exists|
            found: Seq<Candidate>,
            i: int,
        |
            answers(terms_of(query@), model@, found) && 0 <= i < found.len() && call_ensures(
                score,
                (&(#[trigger] found[i]).weights,),
                None,
            ),
        outcome matches Ok(top) ==> is_ranking(score, terms_of(query@), model@, limit, top@),
{
    let found = match candidates(query, model) {
        Ok(found) => found,
        Err(error) => {
            return Err(error);
        },
    };
    let ghost terms = terms_of(query@);
    let mut scored: Vec<Scored> = Vec::new();
    let mut i: usize = 0;
    while i < found.len()
        invariant
            i <= found.len(),
            terms == terms_of(query@),
            answers(terms, model@, found@),
            !broken(terms, model@),
            forall|weights: &Vec<Weight>| call_requires(score, (weights,)),
            scored_by(score, found@.take(i as int), scored@),
        decreases found.len() - i,
    {
        let candidate = &found[i];
        match score(&candidate.weights) {
            Some(key) => {
                scored.push(Scored { path: candidate.path.clone(), key });
            },
            None => {
                assert(call_ensures(score, (&found@[i as int].weights,), None));
                return Err(SearchError::ScoreNotANumber);
            },
        }
        i += 1;
    }
    assert(found@.take(found.len() as int) =~= found@);
    let top = top_documents(&scored, limit);
    proof {
        let order = choose|order: Seq<usize>|
            #![trigger listed(scored@, order, top@)]
            ranks(keys_of(scored@), scored@.len() as int, limit, order) && listed(
                scored@,
                order,
                top@,
            );
        lemma_search_ranking(terms, model@, found@, scored@, limit, order, top@);
        assert(scored_by(score, found@, scored@) && listed(scored@, order, top@));
        assert(is_ranking(score, terms, model@, limit, top@));
    }
    Ok(top)
}

/// What a ranking of scored candidates lists: documents of the model with a
/// positive weight and a positive key, none of them twice, by falling key,
/// within the limit.
proof fn lemma_search_ranking(
    terms: Seq<Seq<char>>,
    model: ModelView,
    found: Seq<Candidate>,
    scored: Seq<Scored>,
    limit: Option<usize>,
    order: Seq<usize>,
    top: Seq<Scored>,
)
    requires
        answers(terms, model, found),
        scored.len() == found.len(),
        forall|i: int| 0 <= i < found.len() ==> (#[trigger] scored[i]).path@ == found[i].path@,
        ranks(keys_of(scored), scored.len() as int, limit, order),
        listed(scored, order, top),
    ensures
        forall|k: int|
            0 <= k < top.len() ==> {
                let path = (#[trigger] top[k]).path@;
                &&& top[k].key > 0
                &&& model.tfpd.contains_key(path)
                &&& promising(weights_of(terms, model.tfpd[path], model))
            },
        forall|a: int, b: int|
            0 <= a < b < top.len() ==> (#[trigger] top[a]).key >= (#[trigger] top[b]).key
                && top[a].path@ != top[b].path@,
        limit matches Some(most) ==> top.len() <= most,
{
    let keys = keys_of(scored);
    assert forall|k: int| 0 <= k < top.len() implies {
        let path = (#[trigger] top[k]).path@;
        &&& top[k].key > 0
        &&& model.tfpd.contains_key(path)
        &&& promising(weights_of(terms, model.tfpd[path], model))
    } by {
        let at = order[k] as int;
        assert(keys[at] == scored[at].key);
        assert(scored[at].path@ == found[at].path@);
    }
    assert forall|a: int, b: int| 0 <= a < b < top.len() implies (#[trigger] top[a]).key >= (
    #[trigger] top[b]).key && top[a].path@ != top[b].path@ by {
        let x = order[a] as int;
        let y = order[b] as int;
        assert(order[a] != order[b] && keys[x] >= keys[y]);
        assert(keys[x] == scored[x].key && keys[y] == scored[y].key);
        assert(scored[x].path@ == found[x].path@ && scored[y].path@ == found[y].path@);
        if x < y {
            assert(found[x].path@ != found[y].path@);
        } else {
            assert(found[y].path@ != found[x].path@);
        }
    }
}

/// A position whose key is zero changes nothing.
proof fn lemma_rank_pass(keys: Seq<u32>, i: int, limit: Option<usize>, before: Seq<usize>)
    requires
        0 <= i < keys.len(),
        keys[i] == 0,
        ranks(keys, i, limit, before),
    ensures
        ranks(keys, i + 1, limit, before),
{
}

/// A position whose key is no larger than any in a full ranking is left out.
proof fn lemma_rank_skip(keys: Seq<u32>, i: int, limit: Option<usize>, before: Seq<usize>)
    requires
        0 <= i < keys.len(),
        ranks(keys, i, limit, before),
        limit == Some(before.len() as usize),
        before.len() > 0 ==> keys[before[before.len() - 1] as int] >= keys[i],
    ensures
        ranks(keys, i + 1, limit, before),
{
    assert forall|k: int| 0 <= k < before.len() implies keys[#[trigger] before[k] as int]
        >= keys[i] by {
        if k < before.len() - 1 {
            assert(keys[before[k] as int] >= keys[before[before.len() - 1] as int]);
        }
    }
}

/// A ranking that is not full takes a position with a positive key at its
/// place among the keys.
proof fn lemma_rank_insert(
    keys: Seq<u32>,
    i: int,
    limit: Option<usize>,
    before: Seq<usize>,
    at: int,
)
    requires
        0 <= i < keys.len(),
        i <= usize::MAX,
        keys[i] > 0,
        ranks(keys, i, limit, before),
        limit matches Some(most) ==> before.len() < most,
        0 <= at <= before.len(),
        forall|k: int| at <= k < before.len() ==> keys[#[trigger] before[k] as int] < keys[i],
        at > 0 ==> keys[before[at - 1] as int] >= keys[i],
    ensures
        ranks(keys, i + 1, limit, before.insert(at, i as usize)),
{
    let grown = before.insert(at, i as usize);
    lemma_grown(keys, i, limit, before, at);
    assert forall|j: int|
        0 <= j < i + 1 && #[trigger] keys[j] > 0 && !grown.contains(j as usize) implies false by {
        assert(!before.contains(j as usize));
    }
}

/// A full ranking takes a position whose key is larger than its last one, and
/// drops that last one.
proof fn lemma_rank_replace(
    keys: Seq<u32>,
    i: int,
    limit: Option<usize>,
    before: Seq<usize>,
    at: int,
)
    requires
        0 <= i < keys.len(),
        i <= usize::MAX,
        keys[i] > 0,
        ranks(keys, i, limit, before),
        limit == Some(before.len() as usize),
        0 <= at < before.len(),
        forall|k: int| at <= k < before.len() ==> keys[#[trigger] before[k] as int] < keys[i],
        at > 0 ==> keys[before[at - 1] as int] >= keys[i],
    ensures
        ranks(keys, i + 1, limit, before.insert(at, i as usize).drop_last()),
{
    let grown = before.insert(at, i as usize);
    let kept = grown.drop_last();
    let last = before[before.len() - 1];
    lemma_grown(keys, i, limit, before, at);
    assert(kept.len() == before.len());
    assert(grown[grown.len() - 1] == last);
    assert forall|k: int| 0 <= k < kept.len() implies #[trigger] kept[k] == grown[k] by {}
    assert forall|k: int| 0 <= k < kept.len() implies (#[trigger] kept[k]) < i + 1 && keys[kept[k] as int]
        > 0 by {
        assert(grown[k] < i + 1 && keys[grown[k] as int] > 0);
    }
    assert forall|a: int, b: int| 0 <= a < b < kept.len() implies (#[trigger] kept[a]) != (
    #[trigger] kept[b]) && keys[kept[a] as int] >= keys[kept[b] as int] by {
        assert(grown[a] != grown[b] && keys[grown[a] as int] >= keys[grown[b] as int]);
    }
    assert forall|k: int| 0 <= k < kept.len() implies keys[#[trigger] kept[k] as int] >= keys[last as int] by {
        assert(grown[k] != grown[grown.len() - 1] && keys[grown[k] as int] >= keys[grown[grown.len()
            - 1] as int]);
    }
    assert forall|j: int|
        0 <= j < i + 1 && #[trigger] keys[j] > 0 && !kept.contains(j as usize) implies {
        &&& limit == Some(kept.len() as usize)
        &&& forall|k: int| 0 <= k < kept.len() ==> keys[#[trigger] kept[k] as int] >= keys[j]
    } by {
        lemma_left_out(keys, i, limit, before, at, j);
    }
}

/// What a full ranking leaves out after it took position `i` is its former
/// last position, or was left out before; either has a key no larger than
/// that of the former last position.
proof fn lemma_left_out(
    keys: Seq<u32>,
    i: int,
    limit: Option<usize>,
    before: Seq<usize>,
    at: int,
    j: int,
)
    requires
        0 <= i < keys.len(),
        i <= usize::MAX,
        ranks(keys, i, limit, before),
        limit == Some(before.len() as usize),
        0 <= at < before.len(),
        0 <= j < i + 1,
        keys[j] > 0,
        !before.insert(at, i as usize).drop_last().contains(j as usize),
    ensures
        keys[j] <= keys[before[before.len() - 1] as int],
{
    let grown = before.insert(at, i as usize);
    let kept = grown.drop_last();
    let last = before[before.len() - 1];
    assert forall|k: int| 0 <= k < kept.len() implies #[trigger] kept[k] == if k < at {
        before[k]
    } else if k == at {
        i as usize
    } else {
        before[k - 1]
    } by {}
    if j == i {
        assert(kept[at] == i as usize);
        assert(false);
    } else if before.contains(j as usize) {
        let k = choose|k: int| 0 <= k < before.len() && before[k] == j as usize;
        if k < at {
            assert(kept[k] == j as usize);
            assert(false);
        } else if k < before.len() - 1 {
            assert(kept[k + 1] == j as usize);
            assert(false);
        }
    } else {
        assert(keys[before[before.len() - 1] as int] >= keys[j]);
    }
}

/// Putting position `i` into `before` at `at` keeps the positions apart and
/// the keys falling.
proof fn lemma_grown(keys: Seq<u32>, i: int, limit: Option<usize>, before: Seq<usize>, at: int)
    requires
        0 <= i < keys.len(),
        i <= usize::MAX,
        keys[i] > 0,
        ranks(keys, i, limit, before),
        0 <= at <= before.len(),
        forall|k: int| at <= k < before.len() ==> keys[#[trigger] before[k] as int] < keys[i],
        at > 0 ==> keys[before[at - 1] as int] >= keys[i],
    ensures
        before.insert(at, i as usize).len() == before.len() + 1,
        forall|k: int|
            0 <= k < before.len() + 1 ==> (#[trigger] before.insert(at, i as usize)[k]) < i + 1
                && keys[before.insert(at, i as usize)[k] as int] > 0,
        forall|a: int, b: int|
            0 <= a < b < before.len() + 1 ==> (#[trigger] before.insert(at, i as usize)[a]) != (
            #[trigger] before.insert(at, i as usize)[b]) && keys[before.insert(
                at,
                i as usize,
            )[a] as int] >= keys[before.insert(at, i as usize)[b] as int],
        forall|x: usize|
            before.insert(at, i as usize).contains(x) <==> (before.contains(x) || x == i),
{
    let grown = before.insert(at, i as usize);
    assert forall|k: int| 0 <= k < grown.len() implies grown[k] == if k < at {
        before[k]
    } else if k == at {
        i as usize
    } else {
        before[k - 1]
    } by {}
    assert forall|k: int| 0 <= k < at implies keys[#[trigger] before[k] as int] >= keys[i] by {
        if k < at - 1 {
            assert(keys[before[k] as int] >= keys[before[at - 1] as int]);
        }
    }
    assert forall|a: int, b: int| 0 <= a < b < grown.len() implies (#[trigger] grown[a]) != (
    #[trigger] grown[b]) && keys[grown[a] as int] >= keys[grown[b] as int] by {
        let pa = if a < at { a } else { a - 1 };
        let pb = if b < at { b } else { b - 1 };
        if a != at && b != at {
            assert(before[pa] != before[pb] && keys[before[pa] as int] >= keys[before[pb] as int]);
        } else if a == at {
            assert(before[pb] < i);
        } else {
            assert(before[pa] < i);
        }
    }
    assert forall|x: usize| grown.contains(x) <==> (before.contains(x) || x == i) by {
        if grown.contains(x) {
            let k = choose|k: int| 0 <= k < grown.len() && grown[k] == x;
            if k < at {
                assert(before[k] == x);
            } else if k > at {
                assert(before[k - 1] == x);
            }
        }
        if before.contains(x) {
            let k = choose|k: int| 0 <= k < before.len() && before[k] == x;
            if k < at {
                assert(grown[k] == x);
            } else {
                assert(grown[k + 1] == x);
            }
        }
        if x == i {
            assert(grown[at] == x);
        }
    }
}

} // verus!
