//! The frequency model: per document, how often each term occurs in it; over
//! the corpus, in how many documents each term occurs.

use crate::lexer::{terms_of, tokenize};
use crate::table::Table;
use vstd::prelude::*;

verus! {

/// How often `t` occurs in `terms`.
pub open spec fn occurrences(terms: Seq<Seq<char>>, t: Seq<char>) -> nat
    decreases terms.len(),
{
    if terms.len() == 0 {
        0
    } else {
        occurrences(terms.drop_last(), t) + if terms.last() == t {
            1nat
        } else {
            0nat
        }
    }
}

/// The term frequencies of a document: each term that occurs in `terms`, with
/// the number of its occurrences.
pub open spec fn term_counts(terms: Seq<Seq<char>>) -> Map<Seq<char>, u64> {
    Map::new(|t: Seq<char>| terms.contains(t), |t: Seq<char>| occurrences(terms, t) as u64)
}

/// What is recorded of one document.
pub struct RecordView {
    /// The number of distinct terms in the document.
    pub distinct: u64,
    /// The number of occurrences of each of its terms.
    pub tf: Map<Seq<char>, u64>,
}

/// The record of a document that consists of `terms`.
pub open spec fn record_of(terms: Seq<Seq<char>>) -> RecordView {
    RecordView { distinct: terms.to_set().len() as u64, tf: term_counts(terms) }
}

/// The frequency model as plain maps.
pub struct ModelView {
    /// For each term, the number of documents that were merged with it.
    pub df: Map<Seq<char>, u64>,
    /// For each document, by its path, its record.
    pub tfpd: Map<Seq<char>, RecordView>,
}

/// The count that `counts` holds for `t`: zero where it holds none.
pub open spec fn count_of(counts: Map<Seq<char>, u64>, t: Seq<char>) -> u64 {
    if counts.contains_key(t) {
        counts[t]
    } else {
        0
    }
}

/// The document frequencies after a document with the terms of `tf` was
/// merged into `df`: each of its terms counts one document more, whatever its
/// frequency in the document.
pub open spec fn merged_df(df: Map<Seq<char>, u64>, tf: Map<Seq<char>, u64>) -> Map<
    Seq<char>,
    u64,
> {
    Map::new(
        |t: Seq<char>| df.contains_key(t) || tf.contains_key(t),
        |t: Seq<char>|
            if tf.contains_key(t) {
                (count_of(df, t) + 1) as u64
            } else {
                count_of(df, t)
            },
    )
}

/// The model after `record` was merged into `model` under `path`. A record
/// that was there under `path` is replaced; what it had added to the document
/// frequencies stays.
pub open spec fn merged(model: ModelView, path: Seq<char>, record: RecordView) -> ModelView {
    ModelView { df: merged_df(model.df, record.tf), tfpd: model.tfpd.insert(path, record) }
}

/// Whether merging a document with the terms of `tf` would take a document
/// frequency of `df` past the largest count.
pub open spec fn df_exhausted(df: Map<Seq<char>, u64>, tf: Map<Seq<char>, u64>) -> bool {
    exists|t: Seq<char>| tf.contains_key(t) && #[trigger] count_of(df, t) == u64::MAX
}

/// The term frequencies of one document and the number of its distinct terms.
pub struct DocumentRecord {
    /// The number of distinct terms: the denominator of a term frequency.
    pub distinct: u64,
    /// The number of occurrences of each term.
    pub tf: Table<u64>,
}

impl View for DocumentRecord {
    type V = RecordView;

    open spec fn view(&self) -> RecordView {
        RecordView { distinct: self.distinct, tf: self.tf@ }
    }
}

/// The index: document frequencies and the record of each document.
pub struct Model {
    /// For each term, the number of documents that hold it.
    pub df: Table<u64>,
    /// For each document, by its path, its record.
    pub tfpd: Table<DocumentRecord>,
}

impl View for Model {
    type V = ModelView;

    open spec fn view(&self) -> ModelView {
        ModelView {
            df: self.df@,
            tfpd: self.tfpd@.map_values(|record: DocumentRecord| record@),
        }
    }
}

impl Default for Model {
    /// An index of no documents.
    fn default() -> (model: Self)
        ensures
            model@.df == Map::<Seq<char>, u64>::empty(),
            model@.tfpd == Map::<Seq<char>, RecordView>::empty(),
    {
        Model::new()
    }
}

/// What can stop a merge.
#[derive(Clone, Copy, Debug, PartialEq, Eq, Structural)]
pub enum IndexError {
    /// A document frequency stands at the largest count that fits.
    CounterOverflow,
}

/// Every occurrence lies in the sequence: there are at most as many as terms.
pub proof fn lemma_occurrences_bound(terms: Seq<Seq<char>>, t: Seq<char>)
    ensures
        occurrences(terms, t) <= terms.len(),
        occurrences(terms, t) > 0 <==> terms.contains(t),
    decreases terms.len(),
{
    if terms.len() > 0 {
        lemma_occurrences_bound(terms.drop_last(), t);
        if terms.last() == t {
            assert(terms[terms.len() - 1] == t);
        } else if terms.contains(t) {
            let i = choose|i: int| 0 <= i < terms.len() && terms[i] == t;
            assert(terms.drop_last()[i] == t);
        }
        if terms.drop_last().contains(t) {
            let i = choose|i: int| 0 <= i < terms.drop_last().len() && terms.drop_last()[i] == t;
            assert(terms[i] == t);
        }
    }
}

/// Whether the document frequencies of `model` cover its records: a term that
/// occurs in a recorded document has a document frequency of at least one.
pub open spec fn consistent(model: ModelView) -> bool {
    forall|path: Seq<char>, t: Seq<char>|
        #![trigger model.tfpd[path].tf.contains_key(t)]
        model.tfpd.contains_key(path) && model.tfpd[path].tf.contains_key(t) ==> count_of(
            model.df,
            t,
        ) >= 1
}

/// A merge adds one to the document frequency of each term of the record,
/// however often the term occurs in it, and leaves every other document
/// frequency as it was: none ever falls.
pub proof fn lemma_merge_counts_once(
    model: ModelView,
    path: Seq<char>,
    record: RecordView,
    t: Seq<char>,
)
    requires
        !df_exhausted(model.df, record.tf),
    ensures
        count_of(merged(model, path, record).df, t) == count_of(model.df, t) + if record.tf.contains_key(
            t,
        ) {
            1int
        } else {
            0int
        },
        merged(model, path, record).df.contains_key(t) <==> model.df.contains_key(t)
            || record.tf.contains_key(t),
{
    if record.tf.contains_key(t) {
        assert(count_of(model.df, t) < u64::MAX);
    }
}

/// A merge keeps the document frequencies covering the records.
pub proof fn lemma_merge_keeps_consistent(model: ModelView, path: Seq<char>, record: RecordView)
    requires
        consistent(model),
        !df_exhausted(model.df, record.tf),
    ensures
        consistent(merged(model, path, record)),
{
    let after = merged(model, path, record);
    assert forall|p: Seq<char>, t: Seq<char>|
        #![trigger after.tfpd[p].tf.contains_key(t)]
        after.tfpd.contains_key(p) && after.tfpd[p].tf.contains_key(t) implies count_of(after.df, t)
        >= 1 by {
        lemma_merge_counts_once(model, path, record, t);
        if p != path {
            assert(model.tfpd[p].tf.contains_key(t));
        }
    }
}

impl DocumentRecord {
    /// The record is that of some document: it counts the terms that it holds,
    /// and each of them occurs at least once.
    pub open spec fn well_formed(&self) -> bool {
        &&& self@.tf.dom().finite()
        &&& self@.distinct == self@.tf.len()
        &&& forall|t: Seq<char>| self@.tf.contains_key(t) ==> #[trigger] self@.tf[t] >= 1
    }
}

/// Counts the terms of `text`.
pub fn index_document(text: &[char]) -> (record: DocumentRecord)
    ensures
        record@ == record_of(terms_of(text@)),
        record.well_formed(),
{
    let terms = tokenize(text);
    let ghost all = terms.deep_view();
    let mut tf: Table<u64> = Table::new();
    let mut i: usize = 0;
    while i < terms.len()
        invariant
            i <= terms.len(),
            all == terms.deep_view(),
            tf@ =~= term_counts(all.take(i as int)),
        decreases terms.len() - i,
    {
        let term = &terms[i];
        proof {
            let before = all.take(i as int);
            let after = all.take(i + 1);
            assert(after.drop_last() =~= before);
            assert(after.last() == term@);
            lemma_occurrences_bound(before, term@);
            assert forall|t: Seq<char>| after.contains(t) <==> (before.contains(t) || t == term@) by {
                lemma_occurrences_bound(before, t);
                lemma_occurrences_bound(after, t);
            }
        }
        let count: u64 = match tf.get(term.as_str()) {
            Some(n) => *n,
            None => 0,
        };
        tf.insert(term.clone(), count + 1);
        i += 1;
    }
    let n = tf.len();
    proof {
        assert(all.take(terms.len() as int) =~= all);
        assert(tf@.dom() =~= all.to_set());
        assert forall|t: Seq<char>| tf@.contains_key(t) implies #[trigger] tf@[t] >= 1 by {
            lemma_occurrences_bound(all, t);
        }
    }
    DocumentRecord { distinct: n as u64, tf }
}

impl Model {
    /// An index of no documents.
    pub fn new() -> (model: Self)
        ensures
            model@.df == Map::<Seq<char>, u64>::empty(),
            model@.tfpd == Map::<Seq<char>, RecordView>::empty(),
    {
        let model = Model { df: Table::new(), tfpd: Table::new() };
        assert(model@.tfpd =~= Map::<Seq<char>, RecordView>::empty());
        model
    }

    /// The number of documents in the index.
    pub fn len(&self) -> (n: usize)
        ensures
            n == self@.tfpd.len(),
            self@.tfpd.dom().finite(),
    {
        let n = self.tfpd.len();
        assert(self@.tfpd.dom() =~= self.tfpd@.dom());
        n
    }
}

/// Folds `record` into `model` as the record of the document at `path`.
///
/// Each term of the record counts one document more in the document
/// frequencies, and the record replaces any earlier one under `path`. Where a
/// document frequency cannot grow, nothing is changed.
pub fn merge(model: &mut Model, path: String, record: DocumentRecord) -> (outcome: Result<
    (),
    IndexError,
>)
    ensures
        outcome is Err <==> df_exhausted(old(model)@.df, record@.tf),
        outcome is Ok ==> final(model)@ == merged(old(model)@, path@, record@),
        outcome is Err ==> final(model)@ == old(model)@,
        outcome is Err ==> outcome == Err::<(), IndexError>(IndexError::CounterOverflow),
{
    let ghost df0 = model.df@;
    let ghost tf = record.tf@;
    let n = record.tf.len();
    let mut i: usize = 0;
    while i < n
        invariant
            i <= n,
            n == record.tf.keys().len(),
            record.tf.well_formed(),
            record.tf@ == tf,
            model.df@ == df0,
            forall|k: int| 0 <= k < i ==> count_of(df0, #[trigger] record.tf.keys()[k]) < u64::MAX,
        decreases n - i,
    {
        let term = record.tf.key_at(i);
        let full = match model.df.get(term.as_str()) {
            Some(count) => *count == u64::MAX,
            None => false,
        };
        if full {
            assert(count_of(df0, term@) == u64::MAX);
            return Err(IndexError::CounterOverflow);
        }
        i += 1;
    }
    proof {
        assert forall|t: Seq<char>| tf.contains_key(t) implies #[trigger] count_of(df0, t)
            < u64::MAX by {
            assert(record.tf.keys().contains(t));
            let k = choose|k: int| 0 <= k < n && record.tf.keys()[k] == t;
            assert(count_of(df0, record.tf.keys()[k]) < u64::MAX);
        }
    }
    i = 0;
    while i < n
        invariant
            i <= n,
            n == record.tf.keys().len(),
            record.tf.well_formed(),
            record.tf@ == tf,
            model.tfpd == old(model).tfpd,
            forall|t: Seq<char>| tf.contains_key(t) ==> #[trigger] count_of(df0, t) < u64::MAX,
            model.df@ =~= Map::new(
                |t: Seq<char>| df0.contains_key(t) || record.tf.keys().take(i as int).contains(t),
                |t: Seq<char>|
                    if record.tf.keys().take(i as int).contains(t) {
                        (count_of(df0, t) + 1) as u64
                    } else {
                        count_of(df0, t)
                    },
            ),
        decreases n - i,
    {
        let term = record.tf.key_at(i);
        proof {
            let keys = record.tf.keys();
            let before = keys.take(i as int);
            let after = keys.take(i + 1);
            assert(after =~= before.push(term@));
            assert(!before.contains(term@)) by {
                if before.contains(term@) {
                    let k = choose|k: int| 0 <= k < before.len() && before[k] == term@;
                    assert(keys[k] == keys[i as int]);
                }
            }
            assert forall|t: Seq<char>| after.contains(t) <==> (before.contains(t) || t == term@) by {
                if before.contains(t) {
                    let k = choose|k: int| 0 <= k < before.len() && before[k] == t;
                    assert(after[k] == t);
                }
                if t == term@ {
                    assert(after[i as int] == t);
                }
            }
        }
        let count: u64 = match model.df.get(term.as_str()) {
            Some(count) => *count,
            None => 0,
        };
        assert(count == count_of(df0, term@));
        model.df.insert(term.clone(), count + 1);
        i += 1;
    }
    proof {
        let keys = record.tf.keys();
        assert(keys.take(n as int) =~= keys);
        assert(model.df@ =~= merged_df(df0, tf));
    }
    let ghost held = model.tfpd@;
    let ghost entry = record@;
    model.tfpd.insert(path, record);
    proof {
        assert(final(model)@.tfpd =~= old(model)@.tfpd.insert(path@, entry));
    }
    Ok(())
}

} // verus!
