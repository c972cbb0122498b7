//! The persisted form of the index: a JSON object with two members.
//!
//! `df` is an object that maps each term to its document frequency. `tfpd` is
//! an object that maps each document path to an array of two: the number of
//! distinct terms of the document, and an object that maps each of its terms
//! to the number of its occurrences.

use crate::json::{
    array_value, entries_of, items_of, json_of, json_parse, json_text, member, member_names,
    number_value, object_value, parse, render, Json,
};
use crate::model::{DocumentRecord, Model, ModelView, RecordView};
use crate::table::Table;
use vstd::prelude::*;

verus! {

/// The name of the member that holds the document frequencies.
pub open spec fn df_name() -> Seq<char> {
    "df"@
}

/// The name of the member that holds the records of the documents.
pub open spec fn tfpd_name() -> Seq<char> {
    "tfpd"@
}

/// The object that holds `counts`.
pub open spec fn counts_json(counts: Map<Seq<char>, u64>) -> Json {
    Json::Object(
        Map::new(|t: Seq<char>| counts.contains_key(t), |t: Seq<char>| Json::Unsigned(counts[t])),
    )
}

/// The array of two that holds `record`.
pub open spec fn record_json(record: RecordView) -> Json {
    Json::List(seq![Json::Unsigned(record.distinct), counts_json(record.tf)])
}

/// The object that holds `records`.
pub open spec fn records_json(records: Map<Seq<char>, RecordView>) -> Json {
    Json::Object(
        Map::new(
            |path: Seq<char>| records.contains_key(path),
            |path: Seq<char>| record_json(records[path]),
        ),
    )
}

/// The persisted form of `model`.
pub open spec fn model_json(model: ModelView) -> Json {
    Json::Object(
        Map::empty().insert(df_name(), counts_json(model.df)).insert(
            tfpd_name(),
            records_json(model.tfpd),
        ),
    )
}

/// The counts that `tree` holds: it is an object, and each of its members is
/// an integer that is not negative.
pub open spec fn json_counts(tree: Json) -> Option<Map<Seq<char>, u64>> {
    match tree {
        Json::Object(members) => if forall|t: Seq<char>|
            members.contains_key(t) ==> #[trigger] members[t] is Unsigned {
            Some(
                Map::new(
                    |t: Seq<char>| members.contains_key(t),
                    |t: Seq<char>| members[t]->Unsigned_0,
                ),
            )
        } else {
            None
        },
        _ => None,
    }
}

/// The record that `tree` holds: it is an array of an integer that is not
/// negative and of counts, and of nothing more.
pub open spec fn json_record(tree: Json) -> Option<RecordView> {
    match tree {
        Json::List(items) => if items.len() == 2 && items[0] is Unsigned && json_counts(
            items[1],
        ) is Some {
            Some(RecordView { distinct: items[0]->Unsigned_0, tf: json_counts(items[1])->0 })
        } else {
            None
        },
        _ => None,
    }
}

/// The records that `tree` holds: it is an object, and each of its members
/// holds a record.
pub open spec fn json_records(tree: Json) -> Option<Map<Seq<char>, RecordView>> {
    match tree {
        Json::Object(members) => if forall|path: Seq<char>|
            members.contains_key(path) ==> #[trigger] json_record(members[path]) is Some {
            Some(
                Map::new(
                    |path: Seq<char>| members.contains_key(path),
                    |path: Seq<char>| json_record(members[path])->0,
                ),
            )
        } else {
            None
        },
        _ => None,
    }
}

/// The model that `tree` holds: it is an object with a member `df` that holds
/// counts and a member `tfpd` that holds records. Other members are passed
/// over.
pub open spec fn json_model(tree: Json) -> Option<ModelView> {
    match tree {
        Json::Object(members) => if members.contains_key(df_name()) && members.contains_key(
            tfpd_name(),
        ) && json_counts(members[df_name()]) is Some && json_records(members[tfpd_name()])
            is Some {
            Some(
                ModelView {
                    df: json_counts(members[df_name()])->0,
                    tfpd: json_records(members[tfpd_name()])->0,
                },
            )
        } else {
            None
        },
        _ => None,
    }
}

/// Why an index could not be saved or loaded.
#[derive(Clone, Copy, Debug, PartialEq, Eq, Structural)]
pub enum CodecError {
    /// The text is not JSON, or not of the form of an index.
    CorruptIndex,
    /// The index could not be written as JSON.
    Unwritable,
}

/// Reading counts back from the object that holds them gives the counts.
pub proof fn lemma_counts_round_trip(counts: Map<Seq<char>, u64>)
    ensures
        json_counts(counts_json(counts)) == Some(counts),
{
    assert(json_counts(counts_json(counts))->0 =~= counts);
}

/// Reading a record back from the array that holds it gives the record.
pub proof fn lemma_record_round_trip(record: RecordView)
    ensures
        json_record(record_json(record)) == Some(record),
{
    lemma_counts_round_trip(record.tf);
}

/// Reading records back from the object that holds them gives the records.
pub proof fn lemma_records_round_trip(records: Map<Seq<char>, RecordView>)
    ensures
        json_records(records_json(records)) == Some(records),
{
    assert forall|path: Seq<char>| records.contains_key(path) implies json_record(
        #[trigger] record_json(records[path]),
    ) == Some(records[path]) by {
        lemma_record_round_trip(records[path]);
    }
    assert(json_records(records_json(records))->0 =~= records);
}

/// The two member names differ.
pub proof fn lemma_names_differ()
    ensures
        df_name() != tfpd_name(),
        df_name().len() == 2,
        tfpd_name().len() == 4,
{
    reveal_strlit("df");
    reveal_strlit("tfpd");
    assert(df_name().len() != tfpd_name().len());
}

/// Loading what was saved gives the index back: the model that the persisted
/// form of a model holds is that model.
pub proof fn lemma_model_round_trip(model: ModelView)
    ensures
        json_model(model_json(model)) == Some(model),
{
    lemma_names_differ();
    lemma_counts_round_trip(model.df);
    lemma_records_round_trip(model.tfpd);
}

/// Reading a model from a value that was written for it succeeds, and gives
/// the model back.
pub proof fn lemma_decode_inverts_encode(
    model: ModelView,
    value: serde_json::Value,
    decoded: Result<Model, CodecError>,
)
    requires
        json_of(value) == model_json(model),
        match decoded {
            Ok(read) => json_model(json_of(value)) == Some(read@),
            Err(_) => json_model(json_of(value)) is None,
        },
    ensures
        decoded matches Ok(read) && read@ == model,
{
    lemma_model_round_trip(model);
}

/// The JSON object that holds `counts`.
pub fn encode_counts(counts: &Table<u64>) -> (value: serde_json::Value)
    ensures
        json_of(value) == counts_json(counts@),
{
    let n = counts.len();
    let ghost names = counts.keys();
    let mut members = serde_json::Map::new();
    let mut i: usize = 0;
    while i < n
        invariant
            i <= n,
            n == names.len(),
            names == counts.keys(),
            counts.well_formed(),
            entries_of(members) =~= Map::new(
                |t: Seq<char>| names.take(i as int).contains(t),
                |t: Seq<char>| Json::Unsigned(counts@[t]),
            ),
        decreases n - i,
    {
        let term = counts.key_at(i);
        proof {
            lemma_take_next_contains(names, i as int);
        }
        let count: u64 = match counts.get(term.as_str()) {
            Some(count) => *count,
            None => 0,
        };
        members.insert(term.clone(), number_value(count));
        assert(entries_of(members) =~= Map::new(
            |t: Seq<char>| names.take(i + 1).contains(t),
            |t: Seq<char>| Json::Unsigned(counts@[t]),
        ));
        i += 1;
    }
    proof {
        assert(names.take(n as int) =~= names);
        assert(entries_of(members) =~= counts_json(counts@)->Object_0);
    }
    object_value(members)
}

/// What the first `i + 1` of `names` hold: what the first `i` hold, and
/// `names[i]`.
proof fn lemma_take_next_contains(names: Seq<Seq<char>>, i: int)
    requires
        0 <= i < names.len(),
    ensures
        forall|t: Seq<char>|
            #![trigger names.take(i + 1).contains(t)]
            #![trigger names.take(i).contains(t)]
            names.take(i + 1).contains(t) <==> (names.take(i).contains(t) || t == names[i]),
{
    let before = names.take(i);
    let after = names.take(i + 1);
    assert forall|t: Seq<char>| after.contains(t) <==> (before.contains(t) || t == names[i]) by {
        if before.contains(t) {
            let k = choose|k: int| 0 <= k < before.len() && before[k] == t;
            assert(after[k] == t);
        }
        if t == names[i] {
            assert(after[i] == t);
        }
        if after.contains(t) {
            let k = choose|k: int| 0 <= k < after.len() && after[k] == t;
            if k < i {
                assert(before[k] == t);
            }
        }
    }
}

/// The JSON array that holds `record`.
pub fn encode_record(record: &DocumentRecord) -> (value: serde_json::Value)
    ensures
        json_of(value) == record_json(record@),
{
    let mut items: Vec<serde_json::Value> = Vec::new();
    items.push(number_value(record.distinct));
    items.push(encode_counts(&record.tf));
    proof {
        assert(items_of(items@) =~= seq![
            Json::Unsigned(record@.distinct),
            counts_json(record@.tf),
        ]);
    }
    array_value(items)
}

/// The JSON value that holds `model`.
pub fn encode_model(model: &Model) -> (value: serde_json::Value)
    ensures
        json_of(value) == model_json(model@),
{
    let n = model.tfpd.len();
    let ghost paths = model.tfpd.keys();
    let ghost records = model@.tfpd;
    assert(records.dom() =~= model.tfpd@.dom());
    let mut documents = serde_json::Map::new();
    let mut i: usize = 0;
    while i < n
        invariant
            i <= n,
            n == paths.len(),
            paths == model.tfpd.keys(),
            records == model@.tfpd,
            model.tfpd.well_formed(),
            entries_of(documents) =~= Map::new(
                |path: Seq<char>| paths.take(i as int).contains(path),
                |path: Seq<char>| record_json(records[path]),
            ),
        decreases n - i,
    {
        let path = model.tfpd.key_at(i);
        proof {
            lemma_take_next_contains(paths, i as int);
        }
        match model.tfpd.get(path.as_str()) {
            Some(record) => {
                assert(records[path@] == record@);
                documents.insert(path.clone(), encode_record(record));
            },
            None => {},
        }
        assert(entries_of(documents) =~= Map::new(
            |path: Seq<char>| paths.take(i + 1).contains(path),
            |path: Seq<char>| record_json(records[path]),
        ));
        i += 1;
    }
    proof {
        assert(paths.take(n as int) =~= paths);
        assert(entries_of(documents) =~= records_json(records)->Object_0);
    }
    let mut members = serde_json::Map::new();
    members.insert("df".to_owned(), encode_counts(&model.df));
    members.insert("tfpd".to_owned(), object_value(documents));
    proof {
        assert(entries_of(members) =~= model_json(model@)->Object_0);
    }
    object_value(members)
}

/// Writes `model` in its persisted form. Every model can be written.
pub fn save_model_as_json(model: &Model) -> (text: Result<String, CodecError>)
    ensures
        text matches Ok(text) && text@ == json_text(model_json(model@)),
{
    let value = encode_model(model);
    match render(&value) {
        Ok(text) => Ok(text),
        Err(_) => Err(CodecError::Unwritable),
    }
}

/// Reads counts from a JSON value.
pub fn decode_counts(value: &serde_json::Value) -> (counts: Option<Table<u64>>)
    ensures
        match counts {
            Some(counts) => json_counts(json_of(*value)) == Some(counts@),
            None => json_counts(json_of(*value)) is None,
        },
{
    let members = match value.as_object() {
        Some(members) => members,
        None => {
            return None;
        },
    };
    let ghost held = entries_of(*members);
    let names = member_names(members);
    let ghost all = names.deep_view();
    let mut counts: Table<u64> = Table::new();
    let mut i: usize = 0;
    while i < names.len()
        invariant
            i <= names.len(),
            all == names.deep_view(),
            held == entries_of(*members),
            json_of(*value) == Json::Object(held),
            forall|t: Seq<char>| all.contains(t) <==> held.contains_key(t),
            forall|k: int| 0 <= k < i ==> held[#[trigger] all[k]] is Unsigned,
            counts@ =~= Map::new(
                |t: Seq<char>| all.take(i as int).contains(t),
                |t: Seq<char>| held[t]->Unsigned_0,
            ),
        decreases names.len() - i,
    {
        let name = &names[i];
        proof {
            lemma_take_next_contains(all, i as int);
            assert(all.contains(all[i as int]));
        }
        let count = match member(members, name.as_str()) {
            Some(entry) => entry.as_u64(),
            None => None,
        };
        match count {
            Some(count) => {
                counts.insert(name.clone(), count);
            },
            None => {
                assert(!(held[all[i as int]] is Unsigned));
                return None;
            },
        }
        i += 1;
    }
    proof {
        assert(all.take(names.len() as int) =~= all);
        assert forall|t: Seq<char>| held.contains_key(t) implies #[trigger] held[t] is Unsigned by {
            assert(all.contains(t));
            let k = choose|k: int| 0 <= k < all.len() && all[k] == t;
            assert(held[all[k]] is Unsigned);
        }
        assert(counts@ =~= json_counts(json_of(*value))->0);
    }
    Some(counts)
}

/// Reads the record of a document from a JSON value.
pub fn decode_record(value: &serde_json::Value) -> (record: Option<DocumentRecord>)
    ensures
        match record {
            Some(record) => json_record(json_of(*value)) == Some(record@),
            None => json_record(json_of(*value)) is None,
        },
{
    let items = match value.as_array() {
        Some(items) => items,
        None => {
            return None;
        },
    };
    if items.len() != 2 {
        return None;
    }
    assert(items_of(items@)[0] == json_of(items@[0]));
    assert(items_of(items@)[1] == json_of(items@[1]));
    let distinct = match items[0].as_u64() {
        Some(distinct) => distinct,
        None => {
            return None;
        },
    };
    match decode_counts(&items[1]) {
        Some(tf) => Some(DocumentRecord { distinct, tf }),
        None => None,
    }
}

/// Reads the records of the documents from a JSON value.
pub fn decode_records(value: &serde_json::Value) -> (records: Option<Table<DocumentRecord>>)
    ensures
        match records {
            Some(records) => json_records(json_of(*value)) == Some(
                records@.map_values(|record: DocumentRecord| record@),
            ),
            None => json_records(json_of(*value)) is None,
        },
{
    let members = match value.as_object() {
        Some(members) => members,
        None => {
            return None;
        },
    };
    let ghost held = entries_of(*members);
    let names = member_names(members);
    let ghost all = names.deep_view();
    let mut records: Table<DocumentRecord> = Table::new();
    let mut i: usize = 0;
    while i < names.len()
        invariant
            i <= names.len(),
            all == names.deep_view(),
            held == entries_of(*members),
            json_of(*value) == Json::Object(held),
            forall|path: Seq<char>| all.contains(path) <==> held.contains_key(path),
            forall|k: int| 0 <= k < i ==> json_record(held[#[trigger] all[k]]) is Some,
            records@.map_values(|record: DocumentRecord| record@) =~= Map::new(
                |path: Seq<char>| all.take(i as int).contains(path),
                |path: Seq<char>| json_record(held[path])->0,
            ),
        decreases names.len() - i,
    {
        let name = &names[i];
        proof {
            lemma_take_next_contains(all, i as int);
            assert(all.contains(all[i as int]));
        }
        let record = match member(members, name.as_str()) {
            Some(entry) => decode_record(entry),
            None => None,
        };
        match record {
            Some(record) => {
                let ghost before = records@;
                let ghost entry = record@;
                records.insert(name.clone(), record);
                assert(records@.map_values(|record: DocumentRecord| record@) =~= before.map_values(
                    |record: DocumentRecord| record@,
                ).insert(all[i as int], entry));
            },
            None => {
                assert(json_record(held[all[i as int]]) is None);
                return None;
            },
        }
        i += 1;
    }
    proof {
        assert(all.take(names.len() as int) =~= all);
        assert forall|path: Seq<char>| held.contains_key(path) implies #[trigger] json_record(
            held[path],
        ) is Some by {
            assert(all.contains(path));
            let k = choose|k: int| 0 <= k < all.len() && all[k] == path;
            assert(json_record(held[all[k]]) is Some);
        }
        assert(records@.map_values(|record: DocumentRecord| record@) =~= json_records(
            json_of(*value),
        )->0);
    }
    Some(records)
}

/// Reads a model from a JSON value.
pub fn decode_model(value: &serde_json::Value) -> (model: Result<Model, CodecError>)
    ensures
        match model {
            Ok(model) => json_model(json_of(*value)) == Some(model@),
            Err(error) => json_model(json_of(*value)) is None && error == CodecError::CorruptIndex,
        },
{
    let members = match value.as_object() {
        Some(members) => members,
        None => {
            return Err(CodecError::CorruptIndex);
        },
    };
    let df = match member(members, "df") {
        Some(entry) => decode_counts(entry),
        None => None,
    };
    let tfpd = match member(members, "tfpd") {
        Some(entry) => decode_records(entry),
        None => None,
    };
    match (df, tfpd) {
        (Some(df), Some(tfpd)) => Ok(Model { df, tfpd }),
        _ => Err(CodecError::CorruptIndex),
    }
}

/// Reads a model from its persisted form.
///
/// Fails where `text` is not JSON, or does not have the form of an index.
pub fn load_index(text: &str) -> (model: Result<Model, CodecError>)
    ensures
        match model {
            Ok(model) => json_parse(text@) matches Some(tree) && json_model(tree) == Some(model@),
            Err(error) => {
                &&& error == CodecError::CorruptIndex
                &&& json_parse(text@) matches Some(tree) ==> json_model(tree) is None
            },
        },
{
    match parse(text) {
        Ok(value) => decode_model(&value),
        Err(_) => Err(CodecError::CorruptIndex),
    }
}

} // verus!
