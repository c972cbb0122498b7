use tfidf_index::indexer::{add_document, add_folder_to_model, build_index, Document, SourceFile};
use tfidf_index::model::{index_document, merge, DocumentRecord, IndexError, Model};
use tfidf_index::table::Table;

fn chars(s: &str) -> Vec<char> {
    s.chars().collect()
}

fn document(path: &str, text: &str) -> Document {
    Document { path: path.to_string(), text: chars(text) }
}

fn file(path: &str, content: Option<&str>) -> SourceFile {
    SourceFile { path: path.to_string(), content: content.map(|c| c.as_bytes().to_vec()) }
}

fn entries(table: &Table<u64>) -> Vec<(String, u64)> {
    let mut all = Vec::new();
    for i in 0..table.len() {
        let key = table.key_at(i);
        all.push((key.clone(), *table.get(key).unwrap()));
    }
    all.sort();
    all
}

fn pairs(list: &[(&str, u64)]) -> Vec<(String, u64)> {
    let mut all: Vec<(String, u64)> = list.iter().map(|(k, v)| (k.to_string(), *v)).collect();
    all.sort();
    all
}

#[test]
fn table_keeps_insertion_order_and_last_value() {
    let mut table: Table<u64> = Table::new();
    assert_eq!(table.len(), 0);
    table.insert("b".to_string(), 1);
    table.insert("a".to_string(), 2);
    table.insert("b".to_string(), 3);
    assert_eq!(table.len(), 2);
    assert_eq!(table.key_at(0), "b");
    assert_eq!(table.key_at(1), "a");
    assert_eq!(table.get("b"), Some(&3));
    assert_eq!(table.get("a"), Some(&2));
    assert_eq!(table.get("c"), None);
    assert!(table.contains_key("a"));
    assert!(!table.contains_key("c"));
}

#[test]
fn index_document_counts_terms() {
    let record = index_document(&chars("cat dog cat"));
    assert_eq!(record.distinct, 2);
    assert_eq!(entries(&record.tf), pairs(&[("CAT", 2), ("DOG", 1)]));
}

#[test]
fn index_document_of_nothing_is_empty() {
    let record = index_document(&chars("   "));
    assert_eq!(record.distinct, 0);
    assert_eq!(record.tf.len(), 0);
}

#[test]
fn distinct_counts_terms_not_occurrences() {
    let record = index_document(&chars("a a a a b"));
    assert_eq!(record.distinct, 2);
    assert_eq!(record.tf.get("A"), Some(&4));
    assert_eq!(record.tf.get("B"), Some(&1));
}

#[test]
fn two_document_corpus_has_stated_frequencies() {
    let model = build_index(&vec![document("A", "cat dog cat"), document("B", "dog bird")]);
    assert_eq!(model.len(), 2);
    assert_eq!(entries(&model.df), pairs(&[("CAT", 1), ("DOG", 2), ("BIRD", 1)]));
    let a = model.tfpd.get("A").unwrap();
    assert_eq!(a.distinct, 2);
    assert_eq!(entries(&a.tf), pairs(&[("CAT", 2), ("DOG", 1)]));
    let b = model.tfpd.get("B").unwrap();
    assert_eq!(b.distinct, 2);
    assert_eq!(entries(&b.tf), pairs(&[("DOG", 1), ("BIRD", 1)]));
}

#[test]
fn empty_corpus_gives_empty_index() {
    let model = build_index(&Vec::new());
    assert_eq!(model.len(), 0);
    assert_eq!(model.df.len(), 0);
    assert_eq!(model.tfpd.len(), 0);
}

#[test]
fn unseen_term_has_no_document_frequency() {
    let model = build_index(&vec![document("A", "cat dog cat"), document("B", "dog bird")]);
    assert_eq!(model.df.get("MOUSE"), None);
    assert_eq!(model.df.get("cat"), None);
}

#[test]
fn every_recorded_term_has_a_document_frequency() {
    let model = build_index(&vec![
        document("one", "x y z"),
        document("two", "y y 7"),
        document("three", "z !"),
    ]);
    for i in 0..model.tfpd.len() {
        let record = model.tfpd.get(model.tfpd.key_at(i)).unwrap();
        for j in 0..record.tf.len() {
            let term = record.tf.key_at(j);
            assert!(*model.df.get(term).unwrap() >= 1);
            assert!(*record.tf.get(term).unwrap() >= 1);
        }
        assert_eq!(record.distinct, record.tf.len() as u64);
    }
    assert_eq!(entries(&model.df), pairs(&[("X", 1), ("Y", 2), ("Z", 2), ("7", 1), ("!", 1)]));
}

#[test]
fn merge_counts_each_term_once_per_document() {
    let mut model = Model::new();
    let record = index_document(&chars("cat cat cat"));
    assert_eq!(merge(&mut model, "A".to_string(), record), Ok(()));
    assert_eq!(model.df.get("CAT"), Some(&1));
    assert_eq!(model.tfpd.get("A").unwrap().tf.get("CAT"), Some(&3));
}

#[test]
fn reindexing_a_path_replaces_the_record_and_keeps_the_frequencies() {
    let mut model = Model::new();
    assert_eq!(add_document(&mut model, "A".to_string(), &chars("cat dog")), Ok(()));
    assert_eq!(add_document(&mut model, "A".to_string(), &chars("cat bird")), Ok(()));
    assert_eq!(model.len(), 1);
    assert_eq!(entries(&model.df), pairs(&[("CAT", 2), ("DOG", 1), ("BIRD", 1)]));
    let a = model.tfpd.get("A").unwrap();
    assert_eq!(entries(&a.tf), pairs(&[("CAT", 1), ("BIRD", 1)]));
}

#[test]
fn merge_refuses_to_overflow_and_changes_nothing() {
    let mut model = Model::new();
    model.df.insert("CAT".to_string(), u64::MAX);
    model.df.insert("DOG".to_string(), 5);
    let record = index_document(&chars("dog cat"));
    assert_eq!(merge(&mut model, "A".to_string(), record), Err(IndexError::CounterOverflow));
    assert_eq!(entries(&model.df), pairs(&[("CAT", u64::MAX), ("DOG", 5)]));
    assert_eq!(model.len(), 0);
}

#[test]
fn merge_takes_a_record_as_it_is() {
    let mut model = Model::new();
    let mut tf: Table<u64> = Table::new();
    tf.insert("X".to_string(), 7);
    assert_eq!(merge(&mut model, "doc".to_string(), DocumentRecord { distinct: 3, tf }), Ok(()));
    assert_eq!(model.df.get("X"), Some(&1));
    assert_eq!(model.tfpd.get("doc").unwrap().distinct, 3);
}

#[test]
fn folder_is_indexed_and_unreadable_files_are_skipped() {
    let files = vec![
        file("a.xhtml", Some("<p>cat dog cat</p>")),
        file("b.xhtml", None),
        file("c.xhtml", Some("<p>dog <b>bird</b></p>")),
        file("d.xhtml", Some("<p>broken")),
        file("e.xhtml", Some("not xml at all")),
    ];
    let mut model = Model::new();
    assert_eq!(add_folder_to_model(&files, &mut model), Ok(3));
    assert_eq!(model.len(), 2);
    assert_eq!(entries(&model.df), pairs(&[("CAT", 1), ("DOG", 2), ("BIRD", 1)]));
    assert_eq!(model.tfpd.get("a.xhtml").unwrap().distinct, 2);
    assert_eq!(model.tfpd.get("c.xhtml").unwrap().distinct, 2);
    assert!(model.tfpd.get("b.xhtml").is_none());
    assert!(model.tfpd.get("d.xhtml").is_none());
}

#[test]
fn folder_indexing_stops_where_a_frequency_is_exhausted() {
    let files = vec![
        file("a.xhtml", Some("<p>dog</p>")),
        file("b.xhtml", Some("<p>cat</p>")),
        file("c.xhtml", Some("<p>bird</p>")),
    ];
    let mut model = Model::new();
    model.df.insert("CAT".to_string(), u64::MAX);
    assert_eq!(add_folder_to_model(&files, &mut model), Err(IndexError::CounterOverflow));
    assert_eq!(model.len(), 1);
    assert_eq!(entries(&model.df), pairs(&[("CAT", u64::MAX), ("DOG", 1)]));
}

#[test]
fn empty_folder_changes_nothing() {
    let mut model = Model::new();
    assert_eq!(add_folder_to_model(&Vec::new(), &mut model), Ok(0));
    assert_eq!(model.len(), 0);
    assert_eq!(model.df.len(), 0);
}

#[test]
fn default_model_is_empty() {
    let model = Model::default();
    assert_eq!(model.len(), 0);
    assert_eq!(model.df.len(), 0);
    assert_eq!(model.tfpd.len(), 0);
}
