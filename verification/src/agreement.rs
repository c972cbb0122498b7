//! Searches agree: what a ranking lists is fixed by the scored documents, up
//! to the order among equal keys.

use crate::model::ModelView;
use crate::rank::{
    answers, is_ranking, keys_of, listed, ranks, scored_by, Candidate, Scored, Weight,
};
use vstd::prelude::*;
use vstd::seq_lib::seq_to_set_is_finite;
use vstd::set_lib::lemma_len_subset;

verus! {

/// Whether no two of `scored` share a path.
pub open spec fn no_document_twice(scored: Seq<Scored>) -> bool {
    forall|i: int, j: int|
        0 <= i < j < scored.len() ==> (#[trigger] scored[i]).path@ != (#[trigger] scored[j]).path@
}

/// Whether `document` is one of `scored`, with the same key.
pub open spec fn held_by(document: Scored, scored: Seq<Scored>) -> bool {
    exists|j: int|
        0 <= j < scored.len() && (#[trigger] scored[j]).path@ == document.path@ && scored[j].key
            == document.key
}

/// Whether each document of `first` is one of `second`, with the same key.
pub open spec fn holds_all(first: Seq<Scored>, second: Seq<Scored>) -> bool {
    forall|i: int| 0 <= i < first.len() ==> held_by(#[trigger] first[i], second)
}

/// Where each of the first keys is found again among the second, no two of
/// them at one place, the second ranking is at least as long as the first, and
/// its key at each position is at least as large.
proof fn lemma_key_at_least(
    keys1: Seq<u32>,
    order1: Seq<usize>,
    keys2: Seq<u32>,
    order2: Seq<usize>,
    limit: Option<usize>,
    image: Seq<int>,
    k: int,
)
    requires
        ranks(keys1, keys1.len() as int, limit, order1),
        ranks(keys2, keys2.len() as int, limit, order2),
        keys2.len() <= usize::MAX,
        image.len() == keys1.len(),
        forall|i: int|
            0 <= i < keys1.len() ==> 0 <= #[trigger] image[i] < keys2.len() && keys2[image[i]]
                == keys1[i],
        forall|i: int, j: int|
            0 <= i < j < keys1.len() ==> #[trigger] image[i] != #[trigger] image[j],
        0 <= k < order1.len(),
    ensures
        k < order2.len(),
        keys2[order2[k] as int] >= keys1[order1[k] as int],
{
    let v = keys1[order1[k] as int];
    if !(k < order2.len() && keys2[order2[k] as int] >= v) {
        let m: int = if order2.len() <= k {
            order2.len() as int
        } else {
            k
        };
        let a = Seq::new((k + 1) as nat, |t: int| image[order1[t] as int]);
        let b = Seq::new(m as nat, |t: int| order2[t] as int);
        assert forall|t: int| 0 <= t <= k implies keys1[#[trigger] order1[t] as int] >= v by {
            if t < k {
                assert(order1[t] != order1[k] && keys1[order1[t] as int] >= keys1[order1[k] as int]);
            }
        }
        assert forall|s: int, t: int| 0 <= s < a.len() && 0 <= t < a.len() && s != t implies a[s]
            != a[t] by {
            let x = order1[s] as int;
            let y = order1[t] as int;
            if s < t {
                assert(order1[s] != order1[t]);
            } else {
                assert(order1[t] != order1[s]);
            }
            if x < y {
                assert(image[x] != image[y]);
            } else {
                assert(image[y] != image[x]);
            }
        }
        a.unique_seq_to_set();
        b.lemma_cardinality_of_set();
        seq_to_set_is_finite(b);
        if a.to_set().subset_of(b.to_set()) {
            lemma_len_subset(a.to_set(), b.to_set());
            assert(false);
        }
        let p = choose|p: int| a.to_set().contains(p) && !b.to_set().contains(p);
        let t = choose|t: int| 0 <= t < a.len() && a[t] == p;
        let i = order1[t] as int;
        assert(p == image[i] && keys2[p] == keys1[i] && keys2[p] >= v);
        assert(v > 0);
        assert(!order2.contains(p as usize)) by {
            if order2.contains(p as usize) {
                let q = choose|q: int| 0 <= q < order2.len() && order2[q] == p as usize;
                if q < m {
                    assert(b[q] == p);
                    assert(b.to_set().contains(p));
                } else {
                    assert(order2.len() > k && q >= k);
                    if q > k {
                        assert(order2[k] != order2[q] && keys2[order2[k] as int]
                            >= keys2[order2[q] as int]);
                    }
                }
            }
        }
        assert(keys2[p] > 0);
        assert(limit == Some(order2.len() as usize));
        assert(order1.len() <= order2.len());
        assert(keys2[order2[k] as int] >= keys2[p]);
    }
}

/// Two rankings of the same scored documents, in whatever order they were
/// scored, are of one length and have the same key at every position.
pub proof fn lemma_rankings_agree(
    first: Seq<Scored>,
    order1: Seq<usize>,
    second: Seq<Scored>,
    order2: Seq<usize>,
    limit: Option<usize>,
)
    requires
        ranks(keys_of(first), first.len() as int, limit, order1),
        ranks(keys_of(second), second.len() as int, limit, order2),
        first.len() <= usize::MAX,
        second.len() <= usize::MAX,
        no_document_twice(first),
        no_document_twice(second),
        holds_all(first, second),
        holds_all(second, first),
    ensures
        order1.len() == order2.len(),
        forall|k: int|
            0 <= k < order1.len() ==> first[#[trigger] order1[k] as int].key
                == second[order2[k] as int].key,
{
    let there = lemma_image(first, second);
    let back = lemma_image(second, first);
    let keys1 = keys_of(first);
    let keys2 = keys_of(second);
    if order1.len() > 0 {
        lemma_key_at_least(keys1, order1, keys2, order2, limit, there, order1.len() - 1);
    }
    if order2.len() > 0 {
        lemma_key_at_least(keys2, order2, keys1, order1, limit, back, order2.len() - 1);
    }
    assert forall|k: int| 0 <= k < order1.len() implies first[#[trigger] order1[k] as int].key
        == second[order2[k] as int].key by {
        lemma_key_at_least(keys1, order1, keys2, order2, limit, there, k);
        lemma_key_at_least(keys2, order2, keys1, order1, limit, back, k);
        assert(keys1[order1[k] as int] == first[order1[k] as int].key);
        assert(keys2[order2[k] as int] == second[order2[k] as int].key);
    }
}

/// For each document of `first`, a place of `second` that holds it; no two
/// documents share a place.
proof fn lemma_image(first: Seq<Scored>, second: Seq<Scored>) -> (image: Seq<int>)
    requires
        no_document_twice(first),
        holds_all(first, second),
    ensures
        image.len() == first.len(),
        forall|i: int|
            0 <= i < first.len() ==> 0 <= #[trigger] image[i] < second.len() && keys_of(
                second,
            )[image[i]] == keys_of(first)[i],
        forall|i: int, j: int|
            0 <= i < j < first.len() ==> #[trigger] image[i] != #[trigger] image[j],
{
    let image = Seq::new(
        first.len(),
        |i: int|
            choose|j: int|
                0 <= j < second.len() && (#[trigger] second[j]).path@ == first[i].path@
                    && second[j].key == first[i].key,
    );
    assert forall|i: int| 0 <= i < first.len() implies 0 <= #[trigger] image[i] < second.len()
        && second[image[i]].path@ == first[i].path@ && keys_of(second)[image[i]] == keys_of(
        first,
    )[i] by {
        assert(held_by(first[i], second));
    }
    assert forall|i: int, j: int| 0 <= i < j < first.len() implies #[trigger] image[i]
        != #[trigger] image[j] by {
        assert(second[image[i]].path@ == first[i].path@);
        assert(second[image[j]].path@ == first[j].path@);
        assert(first[i].path@ != first[j].path@);
    }
    image
}

/// Whether `score` gives one key for one sequence of weights.
pub open spec fn is_function<F: Fn(&Vec<Weight>) -> Option<u32>>(score: F) -> bool {
    forall|a: &Vec<Weight>, b: &Vec<Weight>, x: Option<u32>, y: Option<u32>|
        #![trigger call_ensures(score, (a,), x), call_ensures(score, (b,), y)]
        a@ == b@ && call_ensures(score, (a,), x) && call_ensures(score, (b,), y) ==> x == y
}

/// The scored candidates of a ranking hold no document twice, and each of
/// them is among the scored candidates of any other ranking for the same
/// terms and model, with the same key.
proof fn lemma_same_candidates<F: Fn(&Vec<Weight>) -> Option<u32>>(
    score: F,
    terms: Seq<Seq<char>>,
    model: ModelView,
    found1: Seq<Candidate>,
    scored1: Seq<Scored>,
    found2: Seq<Candidate>,
    scored2: Seq<Scored>,
)
    requires
        is_function(score),
        answers(terms, model, found1),
        scored_by(score, found1, scored1),
        answers(terms, model, found2),
        scored_by(score, found2, scored2),
    ensures
        no_document_twice(scored1),
        holds_all(scored1, scored2),
{
    assert forall|i: int, j: int| 0 <= i < j < scored1.len() implies (#[trigger] scored1[i]).path@
        != (#[trigger] scored1[j]).path@ by {
        assert(found1[i].path@ != found1[j].path@);
    }
    assert forall|i: int| 0 <= i < scored1.len() implies held_by(
        #[trigger] scored1[i],
        scored2,
    ) by {
        let path = found1[i].path@;
        assert(model.tfpd.contains_key(path));
        let j = choose|j: int| 0 <= j < found2.len() && (#[trigger] found2[j]).path@ == path;
        assert(found1[i].weights@ == found2[j].weights@);
        assert(call_ensures(score, (&found1[i].weights,), Some(scored1[i].key)));
        assert(call_ensures(score, (&found2[j].weights,), Some(scored2[j].key)));
        assert(Some(scored1[i].key) == Some(scored2[j].key));
        assert(0 <= j < scored2.len() && scored2[j].path@ == scored1[i].path@ && scored2[j].key
            == scored1[i].key);
    }
}

/// Two searches for the same terms against equal models, scored by one
/// function, give rankings of one length with the same score at every
/// position. Which of several documents with one score stands at a position
/// is not fixed; without a limit, each document of one ranking is in the
/// other, with the same score.
pub proof fn lemma_searches_agree<F: Fn(&Vec<Weight>) -> Option<u32>>(
    score: F,
    terms: Seq<Seq<char>>,
    model: ModelView,
    limit: Option<usize>,
    first: Seq<Scored>,
    second: Seq<Scored>,
)
    requires
        is_function(score),
        is_ranking(score, terms, model, limit, first),
        is_ranking(score, terms, model, limit, second),
    ensures
        first.len() == second.len(),
        forall|k: int| 0 <= k < first.len() ==> (#[trigger] first[k]).key == second[k].key,
        limit is None ==> holds_all(first, second),
{
    let (found1, scored1, order1) = choose|
        found: Seq<Candidate>,
        scored: Seq<Scored>,
        order: Seq<usize>,
    |
        #![trigger scored_by(score, found, scored), listed(scored, order, first)]
        {
            &&& answers(terms, model, found)
            &&& scored_by(score, found, scored)
            &&& scored.len() <= usize::MAX
            &&& ranks(keys_of(scored), scored.len() as int, limit, order)
            &&& listed(scored, order, first)
        };
    let (found2, scored2, order2) = choose|
        found: Seq<Candidate>,
        scored: Seq<Scored>,
        order: Seq<usize>,
    |
        #![trigger scored_by(score, found, scored), listed(scored, order, second)]
        {
            &&& answers(terms, model, found)
            &&& scored_by(score, found, scored)
            &&& scored.len() <= usize::MAX
            &&& ranks(keys_of(scored), scored.len() as int, limit, order)
            &&& listed(scored, order, second)
        };
    lemma_same_candidates(score, terms, model, found1, scored1, found2, scored2);
    lemma_same_candidates(score, terms, model, found2, scored2, found1, scored1);
    lemma_rankings_agree(scored1, order1, scored2, order2, limit);
    assert forall|k: int| 0 <= k < first.len() implies (#[trigger] first[k]).key
        == second[k].key by {
        assert(first[k].key == scored1[order1[k] as int].key);
        assert(second[k].key == scored2[order2[k] as int].key);
    }
    if limit is None {
        let keys2 = keys_of(scored2);
        assert forall|k: int| 0 <= k < first.len() implies held_by(#[trigger] first[k], second) by {
            let document = scored1[order1[k] as int];
            assert(keys_of(scored1)[order1[k] as int] == document.key);
            assert(held_by(document, scored2));
            let j = choose|j: int|
                0 <= j < scored2.len() && (#[trigger] scored2[j]).path@ == document.path@
                    && scored2[j].key == document.key;
            assert(keys2[j] == scored2[j].key && keys2[j] > 0);
            assert(order2.contains(j as usize));
            let t = choose|t: int| 0 <= t < order2.len() && order2[t] == j as usize;
            assert(second[t].path@ == scored2[j].path@ && second[t].key == scored2[j].key);
        }
    }
}

} // verus!
