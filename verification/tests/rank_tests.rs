use tfidf_index::indexer::{build_index, Document};
use tfidf_index::model::{DocumentRecord, Model};
use tfidf_index::rank::{
    candidates, compute_idf, compute_tf, rank, search_query, top_documents, Rarity, Scored,
    SearchError, TermFrequency, Weight,
};
use tfidf_index::table::Table;

fn chars(s: &str) -> Vec<char> {
    s.chars().collect()
}

fn document(path: &str, text: &str) -> Document {
    Document { path: path.to_string(), text: chars(text) }
}

fn two_documents() -> Model {
    build_index(&vec![document("A", "cat dog cat"), document("B", "dog bird")])
}

fn tf(weight: &Weight) -> f32 {
    weight.tf.occurrences as f32 / weight.tf.distinct as f32
}

fn idf(weight: &Weight) -> f32 {
    f32::log10(weight.idf.documents as f32 / (1.0 + weight.idf.holders as f32))
}

fn sum(weights: &Vec<Weight>) -> f32 {
    let mut total = 0.0;
    for weight in weights {
        total += tf(weight) * idf(weight);
    }
    total
}

fn key(score: f32) -> Option<u32> {
    if score.is_nan() {
        None
    } else if score > 0.0 {
        Some(score.to_bits())
    } else {
        Some(0)
    }
}

fn score(weights: &Vec<Weight>) -> Option<u32> {
    key(sum(weights))
}

fn always_one(_weights: &Vec<Weight>) -> Option<u32> {
    Some(1)
}

fn search(query: &str, model: &Model, limit: Option<usize>) -> Vec<(String, f32)> {
    search_query(&chars(query), model, limit, score)
        .unwrap()
        .into_iter()
        .map(|d| (d.path, f32::from_bits(d.key)))
        .collect()
}

fn scored(path: &str, key: u32) -> Scored {
    Scored { path: path.to_string(), key }
}

fn listing(top: &[Scored]) -> Vec<(&str, u32)> {
    top.iter().map(|d| (d.path.as_str(), d.key)).collect()
}

fn weight(occurrences: u64, distinct: u64, documents: usize, holders: u64) -> Weight {
    Weight { tf: TermFrequency { occurrences, distinct }, idf: Rarity { documents, holders } }
}

#[test]
fn top_documents_lists_paths_by_falling_key() {
    let all = vec![scored("a", 3), scored("b", 0), scored("c", 9), scored("d", 1)];
    assert_eq!(listing(&top_documents(&all, None)), vec![("c", 9), ("a", 3), ("d", 1)]);
    assert_eq!(listing(&top_documents(&all, Some(2))), vec![("c", 9), ("a", 3)]);
    assert_eq!(listing(&top_documents(&all, Some(0))), Vec::new());
    assert_eq!(listing(&top_documents(&Vec::new(), None)), Vec::new());
    assert_eq!(listing(&top_documents(&vec![scored("z", 0)], Some(20))), Vec::new());
}

#[test]
fn compute_tf_divides_by_distinct_terms() {
    let model = two_documents();
    let a = model.tfpd.get("A").unwrap();
    assert_eq!(compute_tf("CAT", a), TermFrequency { occurrences: 2, distinct: 2 });
    assert_eq!(compute_tf("DOG", a), TermFrequency { occurrences: 1, distinct: 2 });
}

#[test]
fn absent_term_has_frequency_zero() {
    let model = build_index(&vec![document("empty", "   "), document("A", "cat dog cat")]);
    let zero = TermFrequency { occurrences: 0, distinct: 1 };
    assert_eq!(compute_tf("BIRD", model.tfpd.get("A").unwrap()), zero);
    assert_eq!(compute_tf("CAT", model.tfpd.get("empty").unwrap()), zero);
    assert_eq!(tf(&Weight { tf: zero, idf: compute_idf("CAT", 2, &model.df) }), 0.0);
}

#[test]
fn compute_idf_defaults_to_no_holders() {
    let model = two_documents();
    assert_eq!(compute_idf("DOG", 2, &model.df), Rarity { documents: 2, holders: 2 });
    assert_eq!(compute_idf("CAT", 2, &model.df), Rarity { documents: 2, holders: 1 });
    assert_eq!(compute_idf("MOUSE", 2, &model.df), Rarity { documents: 2, holders: 0 });
}

#[test]
fn weight_is_positive_where_the_term_occurs_and_is_rare() {
    assert!(weight(1, 2, 4, 1).is_positive());
    assert!(weight(1, 2, 3, 1).is_positive());
    assert!(!weight(1, 2, 2, 1).is_positive());
    assert!(!weight(1, 2, 2, 2).is_positive());
    assert!(!weight(0, 1, 4, 0).is_positive());
    assert!(!weight(1, 0, 4, 1).is_positive());
    assert!(!weight(1, 2, usize::MAX, u64::MAX).is_positive());
    assert!(weight(1, 0, 4, 1).is_undefined());
    assert!(!weight(0, 1, 4, 1).is_undefined());
    assert!(!weight(3, 2, 4, 1).is_undefined());
}

#[test]
fn query_cat_scores_zero_and_finds_nothing() {
    let model = two_documents();
    let a = model.tfpd.get("A").unwrap();
    let cat = Weight { tf: compute_tf("CAT", a), idf: compute_idf("CAT", model.len(), &model.df) };
    assert_eq!(cat, weight(2, 2, 2, 1));
    assert_eq!(tf(&cat), 1.0);
    assert_eq!(idf(&cat), 0.0);
    assert_eq!(sum(&vec![cat]), 0.0);
    assert_eq!(candidates(&chars("cat"), &model).unwrap().len(), 0);
    assert_eq!(search_query(&chars("cat"), &model, None, score), Ok(Vec::new()));
    assert_eq!(search_query(&chars("cat"), &model, None, always_one), Ok(Vec::new()));
}

#[test]
fn query_bird_scores_zero_and_finds_nothing() {
    let model = two_documents();
    let b = model.tfpd.get("B").unwrap();
    let bird =
        Weight { tf: compute_tf("BIRD", b), idf: compute_idf("BIRD", model.len(), &model.df) };
    assert_eq!(bird, weight(1, 2, 2, 1));
    assert_eq!(tf(&bird), 0.5);
    assert_eq!(idf(&bird), 0.0);
    assert_eq!(sum(&vec![bird]), 0.0);
    assert_eq!(candidates(&chars("bird"), &model).unwrap().len(), 0);
    assert_eq!(search_query(&chars("bird"), &model, None, score), Ok(Vec::new()));
    assert_eq!(search_query(&chars("bird"), &model, None, always_one), Ok(Vec::new()));
}

#[test]
fn query_for_an_absent_term_finds_nothing() {
    let model = two_documents();
    let rarity = compute_idf("MOUSE", model.len(), &model.df);
    let idf = f32::log10(rarity.documents as f32 / (1.0 + rarity.holders as f32));
    assert!((idf - 0.301).abs() < 0.001);
    assert_eq!(candidates(&chars("mouse"), &model).unwrap().len(), 0);
    assert_eq!(search_query(&chars("mouse"), &model, None, always_one), Ok(Vec::new()));
}

#[test]
fn query_for_a_term_of_every_document_finds_nothing() {
    let model = two_documents();
    assert_eq!(candidates(&chars("dog"), &model).unwrap().len(), 0);
    assert_eq!(search_query(&chars("dog cat bird"), &model, None, always_one), Ok(Vec::new()));
}

#[test]
fn query_without_terms_finds_nothing() {
    let model = two_documents();
    assert_eq!(candidates(&chars(""), &model).unwrap().len(), 0);
    assert_eq!(search_query(&chars("  \n"), &model, None, always_one), Ok(Vec::new()));
}

#[test]
fn empty_index_finds_nothing() {
    let model = build_index(&Vec::new());
    assert_eq!(candidates(&chars("cat"), &model).unwrap().len(), 0);
    assert_eq!(search("cat dog bird", &model, None), Vec::new());
    assert_eq!(search("", &model, Some(20)), Vec::new());
    assert_eq!(search_query(&chars("cat"), &model, None, always_one), Ok(Vec::new()));
}

fn broken_index() -> Model {
    let mut model = Model::new();
    let mut x: Table<u64> = Table::new();
    x.insert("X".to_string(), 1);
    let mut y: Table<u64> = Table::new();
    y.insert("Y".to_string(), 1);
    model.tfpd.insert("a".to_string(), DocumentRecord { distinct: 0, tf: x });
    model.tfpd.insert("b".to_string(), DocumentRecord { distinct: 1, tf: y });
    model.df.insert("X".to_string(), 1);
    model.df.insert("Y".to_string(), 1);
    model
}

#[test]
fn record_without_distinct_terms_stops_the_search() {
    let model = broken_index();
    assert!(matches!(candidates(&chars("x"), &model), Err(SearchError::BrokenRecord)));
    assert_eq!(search_query(&chars("x"), &model, None, score), Err(SearchError::BrokenRecord));
    assert_eq!(search_query(&chars("y x"), &model, None, score), Err(SearchError::BrokenRecord));
    assert_eq!(search_query(&chars("y"), &model, None, score), Ok(Vec::new()));
    assert_eq!(search_query(&chars("z"), &model, None, score), Ok(Vec::new()));
}

#[test]
fn score_that_is_not_a_number_stops_the_search() {
    let model = build_index(&vec![
        document("one", "apple"),
        document("two", "banana"),
        document("three", "cherry"),
        document("four", "apple pie"),
    ]);
    fn no_number(_weights: &Vec<Weight>) -> Option<u32> {
        None
    }
    assert_eq!(
        search_query(&chars("pie"), &model, None, no_number),
        Err(SearchError::ScoreNotANumber)
    );
    assert_eq!(search_query(&chars("mouse"), &model, None, no_number), Ok(Vec::new()));
    assert_eq!(key(f32::NAN), None);
}

#[test]
fn rare_term_gives_a_positive_score() {
    let model = build_index(&vec![
        document("one", "apple"),
        document("two", "banana"),
        document("three", "cherry"),
        document("four", "apple pie"),
    ]);
    let found = candidates(&chars("pie"), &model).unwrap();
    assert_eq!(found.len(), 1);
    assert_eq!(found[0].path, "four");
    assert_eq!(found[0].weights, vec![weight(1, 2, 4, 1)]);
    let ranked = search("pie", &model, None);
    assert_eq!(ranked.len(), 1);
    assert_eq!(ranked[0].0, "four");
    assert_eq!(ranked[0].1, 0.5 * f32::log10(2.0));
}

#[test]
fn repeated_query_term_counts_twice() {
    let model = build_index(&vec![
        document("one", "apple"),
        document("two", "banana"),
        document("three", "cherry"),
        document("four", "apple pie"),
    ]);
    let once = search("pie", &model, None);
    let twice = search("pie pie", &model, None);
    assert_eq!(twice.len(), 1);
    assert_eq!(twice[0].1, once[0].1 + once[0].1);
    let found = candidates(&chars("pie pie"), &model).unwrap();
    assert_eq!(found[0].weights.len(), 2);
    assert_eq!(found[0].weights[0], found[0].weights[1]);
}

#[test]
fn candidate_carries_the_weight_of_every_query_term() {
    let model = build_index(&vec![
        document("one", "apple"),
        document("two", "banana"),
        document("three", "cherry"),
        document("four", "apple pie"),
    ]);
    let found = candidates(&chars("apple mouse pie"), &model).unwrap();
    assert_eq!(found.len(), 2);
    let one = found.iter().find(|c| c.path == "one").unwrap();
    assert_eq!(one.weights, vec![weight(1, 1, 4, 2), weight(0, 1, 4, 0), weight(0, 1, 4, 1)]);
    let four = found.iter().find(|c| c.path == "four").unwrap();
    assert_eq!(four.weights, vec![weight(1, 2, 4, 2), weight(0, 1, 4, 0), weight(1, 2, 4, 1)]);
}

#[test]
fn search_is_the_same_on_an_index_built_in_another_order() {
    let first = build_index(&vec![
        document("few", "pie a b c"),
        document("none", "x y z"),
        document("many", "pie pie pie"),
        document("some", "pie pie q"),
        document("other", "m n o"),
    ]);
    let second = build_index(&vec![
        document("other", "m n o"),
        document("some", "pie pie q"),
        document("many", "pie pie pie"),
        document("none", "x y z"),
        document("few", "pie a b c"),
    ]);
    assert_eq!(search("pie q", &first, None), search("pie q", &second, None));
    assert_eq!(search("pie q", &first, Some(2)), search("pie q", &second, Some(2)));
    assert_eq!(search("pie q", &first, None), search("pie q", &first, None));
}

#[test]
fn documents_come_by_falling_score() {
    let model = build_index(&vec![
        document("few", "pie a b c"),
        document("none", "x y z"),
        document("many", "pie pie pie"),
        document("some", "pie pie q"),
        document("other", "m n o"),
        document("more", "r s t"),
    ]);
    let ranked = search("pie", &model, None);
    let paths: Vec<&str> = ranked.iter().map(|(p, _)| p.as_str()).collect();
    assert_eq!(paths, vec!["many", "some", "few"]);
    assert!(ranked[0].1 > ranked[1].1 && ranked[1].1 > ranked[2].1);
    assert!(ranked.iter().all(|(_, s)| *s > 0.0));
    let top = search("pie", &model, Some(2));
    let paths: Vec<&str> = top.iter().map(|(p, _)| p.as_str()).collect();
    assert_eq!(paths, vec!["many", "some"]);
    assert_eq!(search("pie", &model, Some(0)), Vec::new());
}

#[test]
fn rank_orders_positive_keys_and_drops_zero() {
    assert_eq!(rank(&vec![3, 0, 9, 1, 0, 7], None), vec![2, 5, 0, 3]);
    assert_eq!(rank(&vec![3, 0, 9, 1, 0, 7], Some(2)), vec![2, 5]);
    assert_eq!(rank(&vec![3, 0, 9, 1, 0, 7], Some(4)), vec![2, 5, 0, 3]);
    assert_eq!(rank(&vec![3, 0, 9, 1, 0, 7], Some(10)), vec![2, 5, 0, 3]);
    assert_eq!(rank(&vec![3, 0, 9, 1, 0, 7], Some(0)), Vec::<usize>::new());
    assert_eq!(rank(&vec![0, 0], None), Vec::<usize>::new());
    assert_eq!(rank(&Vec::new(), Some(3)), Vec::<usize>::new());
    assert_eq!(rank(&vec![1, 2, 3, 4, 5], Some(3)), vec![4, 3, 2]);
    assert_eq!(rank(&vec![5, 4, 3, 2, 1], Some(3)), vec![0, 1, 2]);
}

#[test]
fn rank_keeps_every_tied_document() {
    let order = rank(&vec![4, 4, 4], None);
    let mut sorted = order.clone();
    sorted.sort();
    assert_eq!(sorted, vec![0, 1, 2]);
    assert_eq!(rank(&vec![4, 4, 4], Some(2)).len(), 2);
}

#[test]
fn float_bits_order_as_positive_scores_do() {
    let scores = [0.1505f32, 2.5, 0.0001, f32::INFINITY, 1.0e-40];
    let keys: Vec<u32> = scores.iter().map(|s| key(*s).unwrap()).collect();
    assert_eq!(rank(&keys, None), vec![3, 1, 0, 2, 4]);
    assert_eq!(key(0.0), Some(0));
    assert_eq!(key(-1.5), Some(0));
}
