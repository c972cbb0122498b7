use tfidf_index::codec::{
    decode_counts, decode_model, decode_record, encode_counts, encode_model, encode_record,
    load_index, save_model_as_json, CodecError,
};
use tfidf_index::indexer::{build_index, Document};
use tfidf_index::model::{DocumentRecord, Model};
use tfidf_index::table::Table;

fn chars(s: &str) -> Vec<char> {
    s.chars().collect()
}

fn document(path: &str, text: &str) -> Document {
    Document { path: path.to_string(), text: chars(text) }
}

fn entries(table: &Table<u64>) -> Vec<(String, u64)> {
    let mut all = Vec::new();
    for i in 0..table.len() {
        let key = table.key_at(i);
        all.push((key.clone(), *table.get(key).unwrap()));
    }
    all.sort();
    all
}

fn records(model: &Model) -> Vec<(String, u64, Vec<(String, u64)>)> {
    let mut all = Vec::new();
    for i in 0..model.tfpd.len() {
        let path = model.tfpd.key_at(i);
        let record = model.tfpd.get(path).unwrap();
        all.push((path.clone(), record.distinct, entries(&record.tf)));
    }
    all.sort();
    all
}

fn same(a: &Model, b: &Model) -> bool {
    entries(&a.df) == entries(&b.df) && records(a) == records(b)
}

fn value(text: &str) -> serde_json::Value {
    serde_json::from_str(text).unwrap()
}

fn is_corrupt(text: &str) -> bool {
    matches!(load_index(text), Err(CodecError::CorruptIndex))
}

#[test]
fn small_index_is_written_as_stated() {
    let model = build_index(&vec![document("a.xhtml", "cat cat")]);
    assert_eq!(
        save_model_as_json(&model),
        Ok("{\"df\":{\"CAT\":1},\"tfpd\":{\"a.xhtml\":[1,{\"CAT\":2}]}}".to_string())
    );
}

#[test]
fn empty_index_is_written_as_two_empty_objects() {
    assert_eq!(save_model_as_json(&Model::new()), Ok("{\"df\":{},\"tfpd\":{}}".to_string()));
}

#[test]
fn saved_index_loads_as_it_was() {
    let model = build_index(&vec![
        document("docs/a.xhtml", "cat dog cat"),
        document("docs/b.xhtml", "dog bird, 42 times!"),
        document("docs/\u{e9}\"q\\.xhtml", "\u{fc}ber \"quoted\" \\ back"),
    ]);
    let text = save_model_as_json(&model).unwrap();
    let loaded = load_index(&text).unwrap();
    assert!(same(&model, &loaded));
    assert_eq!(save_model_as_json(&loaded).unwrap(), text);
}

#[test]
fn saved_empty_index_loads_as_empty() {
    let text = save_model_as_json(&Model::new()).unwrap();
    let loaded = load_index(&text).unwrap();
    assert_eq!(loaded.df.len(), 0);
    assert_eq!(loaded.tfpd.len(), 0);
}

#[test]
fn index_is_read_from_its_stated_form() {
    let text = "{ \"tfpd\": { \"B\": [2, {\"DOG\": 1, \"BIRD\": 1}], \"A\": [2, {\"CAT\": 2, \"DOG\": 1}] },
                 \"df\": { \"CAT\": 1, \"DOG\": 2, \"BIRD\": 1 } }";
    let loaded = load_index(text).unwrap();
    let built = build_index(&vec![document("A", "cat dog cat"), document("B", "dog bird")]);
    assert!(same(&loaded, &built));
}

#[test]
fn members_that_are_not_known_are_passed_over() {
    let loaded = load_index("{\"df\":{\"X\":3},\"tfpd\":{},\"version\":[1,2]}").unwrap();
    assert_eq!(entries(&loaded.df), vec![("X".to_string(), 3)]);
    assert_eq!(loaded.tfpd.len(), 0);
}

#[test]
fn largest_count_is_read_and_written() {
    let text = "{\"df\":{\"X\":18446744073709551615},\"tfpd\":{}}";
    let loaded = load_index(text).unwrap();
    assert_eq!(loaded.df.get("X"), Some(&u64::MAX));
    assert_eq!(save_model_as_json(&loaded).unwrap(), text);
}

#[test]
fn text_that_is_not_json_is_corrupt() {
    assert!(is_corrupt(""));
    assert!(is_corrupt("{"));
    assert!(is_corrupt("{\"df\":{},\"tfpd\":{}} trailing"));
    assert!(is_corrupt("df tfpd"));
}

#[test]
fn json_of_another_form_is_corrupt() {
    assert!(is_corrupt("null"));
    assert!(is_corrupt("[]"));
    assert!(is_corrupt("[{},{}]"));
    assert!(is_corrupt("{}"));
    assert!(is_corrupt("{\"df\":{}}"));
    assert!(is_corrupt("{\"tfpd\":{}}"));
    assert!(is_corrupt("{\"df\":[],\"tfpd\":{}}"));
    assert!(is_corrupt("{\"df\":{},\"tfpd\":[]}"));
    assert!(is_corrupt("{\"df\":{\"X\":-1},\"tfpd\":{}}"));
    assert!(is_corrupt("{\"df\":{\"X\":1.5},\"tfpd\":{}}"));
    assert!(is_corrupt("{\"df\":{\"X\":1.0},\"tfpd\":{}}"));
    assert!(is_corrupt("{\"df\":{\"X\":\"1\"},\"tfpd\":{}}"));
    assert!(is_corrupt("{\"df\":{\"X\":18446744073709551616},\"tfpd\":{}}"));
    assert!(is_corrupt("{\"df\":{},\"tfpd\":{\"A\":{}}}"));
    assert!(is_corrupt("{\"df\":{},\"tfpd\":{\"A\":[]}}"));
    assert!(is_corrupt("{\"df\":{},\"tfpd\":{\"A\":[1]}}"));
    assert!(is_corrupt("{\"df\":{},\"tfpd\":{\"A\":[1,{},2]}}"));
    assert!(is_corrupt("{\"df\":{},\"tfpd\":{\"A\":[{},1]}}"));
    assert!(is_corrupt("{\"df\":{},\"tfpd\":{\"A\":[1,{\"X\":null}]}}"));
    assert!(is_corrupt("{\"df\":{},\"tfpd\":{\"A\":[1,{}],\"B\":7}}"));
}

#[test]
fn counts_are_written_and_read() {
    let mut counts: Table<u64> = Table::new();
    counts.insert("b".to_string(), 2);
    counts.insert("a".to_string(), 1);
    let written = encode_counts(&counts);
    assert_eq!(written, value("{\"a\":1,\"b\":2}"));
    let read = decode_counts(&written).unwrap();
    assert_eq!(entries(&read), entries(&counts));
    assert!(decode_counts(&value("{\"a\":true}")).is_none());
    assert!(decode_counts(&value("7")).is_none());
    assert_eq!(decode_counts(&value("{}")).unwrap().len(), 0);
}

#[test]
fn record_is_written_and_read() {
    let mut tf: Table<u64> = Table::new();
    tf.insert("CAT".to_string(), 2);
    let record = DocumentRecord { distinct: 1, tf };
    let written = encode_record(&record);
    assert_eq!(written, value("[1,{\"CAT\":2}]"));
    let read = decode_record(&written).unwrap();
    assert_eq!(read.distinct, 1);
    assert_eq!(entries(&read.tf), vec![("CAT".to_string(), 2)]);
    assert!(decode_record(&value("[1,{\"CAT\":2},0]")).is_none());
    assert!(decode_record(&value("{\"0\":1}")).is_none());
}

#[test]
fn model_is_written_and_read_as_a_value() {
    let model = build_index(&vec![document("A", "cat dog cat"), document("B", "dog bird")]);
    let written = encode_model(&model);
    assert_eq!(
        written,
        value(
            "{\"df\":{\"BIRD\":1,\"CAT\":1,\"DOG\":2},
              \"tfpd\":{\"A\":[2,{\"CAT\":2,\"DOG\":1}],\"B\":[2,{\"BIRD\":1,\"DOG\":1}]}}"
        )
    );
    let read = decode_model(&written).unwrap();
    assert!(same(&model, &read));
    assert!(matches!(decode_model(&value("[]")), Err(CodecError::CorruptIndex)));
}
