//! The indexer: folds documents into the frequency model, one after another.

use crate::extract::{read_xml_file, text_of, to_chars, xml_pieces};
use crate::lexer::terms_of;
use crate::model::{
    consistent, count_of, df_exhausted, index_document, lemma_merge_counts_once,
    lemma_merge_keeps_consistent, merge, merged, record_of, IndexError, Model, ModelView,
};
use vstd::prelude::*;

verus! {

/// A document as the indexer takes it: where it is stored, and its text.
pub struct Document {
    /// The path of the document, by which the index knows it.
    pub path: String,
    /// The plain text of the document.
    pub text: Vec<char>,
}

/// A file of a folder that is to be indexed.
pub struct SourceFile {
    /// The path of the file, by which the index knows it.
    pub path: String,
    /// The bytes of the file; `None` where they could not be read.
    pub content: Option<Vec<u8>>,
}

/// The model of no documents.
pub open spec fn empty_model() -> ModelView {
    ModelView { df: Map::empty(), tfpd: Map::empty() }
}

/// The model after the document `text` was indexed under `path`.
pub open spec fn with_document(model: ModelView, path: Seq<char>, text: Seq<char>) -> ModelView {
    merged(model, path, record_of(terms_of(text)))
}

/// The model that indexing `documents` from nothing gives.
pub open spec fn indexed(documents: Seq<Document>) -> ModelView
    decreases documents.len(),
{
    if documents.len() == 0 {
        empty_model()
    } else {
        with_document(
            indexed(documents.drop_last()),
            documents.last().path@,
            documents.last().text@,
        )
    }
}

/// The plain text of `file`; none where it could not be read or is not
/// well-formed.
pub open spec fn file_text(file: SourceFile) -> Option<Seq<char>> {
    match file.content {
        Some(bytes) => text_of(xml_pieces(bytes@)),
        None => None,
    }
}

/// The model after the files of `files` that have a text were indexed into
/// `model`, in their order.
pub open spec fn folded(model: ModelView, files: Seq<SourceFile>) -> ModelView
    decreases files.len(),
{
    if files.len() == 0 {
        model
    } else {
        let rest = folded(model, files.drop_last());
        match file_text(files.last()) {
            Some(text) => with_document(rest, files.last().path@, text),
            None => rest,
        }
    }
}

/// The number of files of `files` that have no text.
pub open spec fn skipped(files: Seq<SourceFile>) -> nat
    decreases files.len(),
{
    if files.len() == 0 {
        0
    } else {
        skipped(files.drop_last()) + if file_text(files.last()) is None {
            1nat
        } else {
            0nat
        }
    }
}

/// Whether indexing file `k` of `files`, after those before it, would take a
/// document frequency past the largest count.
pub open spec fn overflows_at(model: ModelView, files: Seq<SourceFile>, k: int) -> bool {
    &&& 0 <= k < files.len()
    &&& file_text(files[k]) matches Some(text) && df_exhausted(
        folded(model, files.take(k)).df,
        record_of(terms_of(text)).tf,
    )
}

/// Indexes the document `text` into `model` under `path`.
///
/// Fails, and changes nothing, where a document frequency cannot grow.
pub fn add_document(model: &mut Model, path: String, text: &[char]) -> (outcome: Result<
    (),
    IndexError,
>)
    ensures
        outcome is Err <==> df_exhausted(old(model)@.df, record_of(terms_of(text@)).tf),
        outcome is Ok ==> final(model)@ == with_document(old(model)@, path@, text@),
        outcome is Err ==> final(model)@ == old(model)@,
{
    let record = index_document(text);
    merge(model, path, record)
}

/// No document frequency of a model that was indexed from nothing exceeds the
/// number of documents that went into it.
pub proof fn lemma_indexed_df_bound(documents: Seq<Document>, t: Seq<char>)
    requires
        documents.len() <= u64::MAX,
    ensures
        count_of(indexed(documents).df, t) <= documents.len(),
    decreases documents.len(),
{
    if documents.len() > 0 {
        lemma_indexed_df_bound(documents.drop_last(), t);
    }
}

/// The number of `documents` in which the term `t` occurs.
pub open spec fn holders(documents: Seq<Document>, t: Seq<char>) -> nat
    decreases documents.len(),
{
    if documents.len() == 0 {
        0
    } else {
        holders(documents.drop_last(), t) + if terms_of(documents.last().text@).contains(t) {
            1nat
        } else {
            0nat
        }
    }
}

/// In an index that was built from nothing, the document frequency of a term
/// is the number of documents in which it occurs.
pub proof fn lemma_df_counts_documents(documents: Seq<Document>, t: Seq<char>)
    requires
        documents.len() <= u64::MAX,
    ensures
        count_of(indexed(documents).df, t) == holders(documents, t),
        holders(documents, t) <= documents.len(),
        indexed(documents).df.contains_key(t) <==> holders(documents, t) >= 1,
    decreases documents.len(),
{
    if documents.len() > 0 {
        lemma_df_counts_documents(documents.drop_last(), t);
    }
}

/// A term that occurs in no document has no document frequency.
pub proof fn lemma_unseen_term_has_no_df(documents: Seq<Document>, t: Seq<char>)
    requires
        forall|i: int| 0 <= i < documents.len() ==> !terms_of(#[trigger] documents[i].text@).contains(t),
    ensures
        !indexed(documents).df.contains_key(t),
        count_of(indexed(documents).df, t) == 0,
    decreases documents.len(),
{
    if documents.len() > 0 {
        let rest = documents.drop_last();
        assert forall|i: int| 0 <= i < rest.len() implies !terms_of(#[trigger] rest[i].text@).contains(
            t,
        ) by {
            assert(rest[i] == documents[i]);
        }
        lemma_unseen_term_has_no_df(rest, t);
        assert(documents.last() == documents[documents.len() - 1]);
    }
}

/// In an index that was built from nothing, a term that occurs in a recorded
/// document has a document frequency of at least one.
pub proof fn lemma_indexed_consistent(documents: Seq<Document>)
    requires
        documents.len() <= u64::MAX,
    ensures
        consistent(indexed(documents)),
    decreases documents.len(),
{
    if documents.len() > 0 {
        let rest = documents.drop_last();
        lemma_indexed_consistent(rest);
        let record = record_of(terms_of(documents.last().text@));
        assert(!df_exhausted(indexed(rest).df, record.tf)) by {
            assert forall|t: Seq<char>| #[trigger] count_of(indexed(rest).df, t) < u64::MAX by {
                lemma_indexed_df_bound(rest, t);
            }
        }
        lemma_merge_keeps_consistent(indexed(rest), documents.last().path@, record);
    }
}

/// Whether no two of `documents` share a path.
pub open spec fn distinct_paths(documents: Seq<Document>) -> bool {
    forall|i: int, j: int|
        0 <= i < j < documents.len() ==> (#[trigger] documents[i]).path@ != (
        #[trigger] documents[j]).path@
}

/// An index that was built from nothing records the paths of its documents,
/// and under each path the last document of that path.
pub proof fn lemma_indexed_records(documents: Seq<Document>)
    ensures
        forall|path: Seq<char>|
            #![trigger indexed(documents).tfpd.contains_key(path)]
            indexed(documents).tfpd.contains_key(path) <==> exists|i: int|
                0 <= i < documents.len() && (#[trigger] documents[i]).path@ == path,
        forall|i: int|
            0 <= i < documents.len() && (forall|j: int|
                i < j < documents.len() ==> (#[trigger] documents[j]).path@ != documents[i].path@)
                ==> indexed(documents).tfpd[(#[trigger] documents[i]).path@] == record_of(
                terms_of(documents[i].text@),
            ),
    decreases documents.len(),
{
    if documents.len() > 0 {
        let rest = documents.drop_last();
        let last = documents.last();
        lemma_indexed_records(rest);
        assert forall|path: Seq<char>|
            #![trigger indexed(documents).tfpd.contains_key(path)]
            indexed(documents).tfpd.contains_key(path) <==> exists|i: int|
                0 <= i < documents.len() && (#[trigger] documents[i]).path@ == path by {
            if indexed(rest).tfpd.contains_key(path) {
                let i = choose|i: int| 0 <= i < rest.len() && (#[trigger] rest[i]).path@ == path;
                assert(documents[i].path@ == path);
            }
            if path == last.path@ {
                assert(documents[documents.len() - 1].path@ == path);
            }
            if exists|i: int| 0 <= i < documents.len() && (#[trigger] documents[i]).path@ == path {
                let i = choose|i: int|
                    0 <= i < documents.len() && (#[trigger] documents[i]).path@ == path;
                if i < rest.len() {
                    assert(rest[i].path@ == path);
                }
            }
        }
        assert forall|i: int|
            0 <= i < documents.len() && (forall|j: int|
                i < j < documents.len() ==> (#[trigger] documents[j]).path@
                    != documents[i].path@) implies indexed(documents).tfpd[(
        #[trigger] documents[i]).path@] == record_of(terms_of(documents[i].text@)) by {
            if i < rest.len() {
                assert(rest[i] == documents[i]);
                assert(documents[documents.len() - 1].path@ != documents[i].path@);
                assert forall|j: int| i < j < rest.len() implies (#[trigger] rest[j]).path@
                    != rest[i].path@ by {
                    assert(rest[j] == documents[j]);
                }
            }
        }
    }
}

/// In an index that was built from nothing out of documents with distinct
/// paths, there are as many records as documents, and no document frequency
/// exceeds their number.
pub proof fn lemma_distinct_paths_count(documents: Seq<Document>)
    requires
        distinct_paths(documents),
        documents.len() <= u64::MAX,
    ensures
        indexed(documents).tfpd.dom().finite(),
        indexed(documents).tfpd.len() == documents.len(),
        forall|t: Seq<char>| #[trigger] count_of(indexed(documents).df, t) <= indexed(documents).tfpd.len(),
    decreases documents.len(),
{
    if documents.len() > 0 {
        let rest = documents.drop_last();
        let last = documents.last();
        assert forall|i: int, j: int| 0 <= i < j < rest.len() implies (#[trigger] rest[i]).path@ != (
        #[trigger] rest[j]).path@ by {
            assert(rest[i] == documents[i] && rest[j] == documents[j]);
        }
        lemma_distinct_paths_count(rest);
        lemma_indexed_records(rest);
        assert(!indexed(rest).tfpd.contains_key(last.path@)) by {
            if indexed(rest).tfpd.contains_key(last.path@) {
                let i = choose|i: int|
                    0 <= i < rest.len() && (#[trigger] rest[i]).path@ == last.path@;
                assert(rest[i] == documents[i]);
                assert(documents[i].path@ != documents[documents.len() - 1].path@);
            }
        }
        assert(indexed(documents).tfpd.dom() =~= indexed(rest).tfpd.dom().insert(last.path@));
    } else {
        assert(indexed(documents).tfpd.dom() =~= Set::<Seq<char>>::empty());
    }
    assert forall|t: Seq<char>| #[trigger] count_of(indexed(documents).df, t) <= indexed(
        documents,
    ).tfpd.len() by {
        lemma_indexed_df_bound(documents, t);
    }
}

/// The number of `files` that have a text in which the term `t` occurs.
pub open spec fn file_holders(files: Seq<SourceFile>, t: Seq<char>) -> nat
    decreases files.len(),
{
    if files.len() == 0 {
        0
    } else {
        file_holders(files.drop_last(), t) + if file_text(files.last()) matches Some(text)
            && terms_of(text).contains(t) {
            1nat
        } else {
            0nat
        }
    }
}

/// Where the first `k` files index without running a document frequency out,
/// so do the first `k` of any longer list that starts with them.
proof fn lemma_overflow_of_prefix(model: ModelView, files: Seq<SourceFile>, k: int)
    requires
        files.len() > 0,
        !overflows_at(model, files, k),
    ensures
        !overflows_at(model, files.drop_last(), k),
{
    let rest = files.drop_last();
    if 0 <= k < rest.len() {
        assert(rest.take(k) =~= files.take(k));
        assert(rest[k] == files[k]);
    }
}

/// Indexing files adds to the document frequency of a term the number of
/// files that hold it, as long as no document frequency runs out.
pub proof fn lemma_folded_df_counts_files(model: ModelView, files: Seq<SourceFile>, t: Seq<char>)
    requires
        forall|k: int| !overflows_at(model, files, k),
    ensures
        count_of(folded(model, files).df, t) == count_of(model.df, t) + file_holders(files, t),
        folded(model, files).df.contains_key(t) <==> model.df.contains_key(t) || file_holders(
            files,
            t,
        ) >= 1,
    decreases files.len(),
{
    if files.len() > 0 {
        let rest = files.drop_last();
        assert forall|k: int| !overflows_at(model, rest, k) by {
            lemma_overflow_of_prefix(model, files, k);
        }
        lemma_folded_df_counts_files(model, rest, t);
        match file_text(files.last()) {
            Some(text) => {
                let k = files.len() - 1;
                assert(files.take(k) =~= rest);
                assert(!overflows_at(model, files, k));
                lemma_merge_counts_once(
                    folded(model, rest),
                    files.last().path@,
                    record_of(terms_of(text)),
                    t,
                );
            },
            None => {},
        }
    }
}

/// Indexing files leaves the document frequency of a term that none of them
/// holds as it was: a term that was never seen has none.
pub proof fn lemma_folded_unseen_term(model: ModelView, files: Seq<SourceFile>, t: Seq<char>)
    requires
        forall|i: int|
            0 <= i < files.len() && file_text(#[trigger] files[i]) is Some ==> !terms_of(
                file_text(files[i])->0,
            ).contains(t),
    ensures
        file_holders(files, t) == 0,
        count_of(folded(model, files).df, t) == count_of(model.df, t),
        folded(model, files).df.contains_key(t) <==> model.df.contains_key(t),
    decreases files.len(),
{
    if files.len() > 0 {
        let rest = files.drop_last();
        assert forall|i: int| 0 <= i < rest.len() && file_text(#[trigger] rest[i]) is Some implies !terms_of(
            file_text(rest[i])->0,
        ).contains(t) by {
            assert(rest[i] == files[i]);
        }
        lemma_folded_unseen_term(model, rest, t);
        assert(files.last() == files[files.len() - 1]);
    }
}

/// Indexing files into an index of no documents never runs a document
/// frequency out, and gives each term the number of files that hold it as
/// its document frequency.
pub proof fn lemma_folded_from_nothing(files: Seq<SourceFile>, t: Seq<char>)
    requires
        files.len() <= u64::MAX,
    ensures
        forall|k: int| !overflows_at(empty_model(), files, k),
        count_of(folded(empty_model(), files).df, t) == file_holders(files, t),
        file_holders(files, t) <= files.len(),
        folded(empty_model(), files).df.contains_key(t) <==> file_holders(files, t) >= 1,
        consistent(folded(empty_model(), files)),
    decreases files.len(),
{
    lemma_file_holders_bound(files, t);
    assert forall|k: int| !overflows_at(empty_model(), files, k) by {
        if 0 <= k < files.len() && file_text(files[k]) is Some {
            let text = file_text(files[k])->0;
            let before = files.take(k);
            lemma_no_overflow_from_nothing(before);
            assert forall|u: Seq<char>| #[trigger] count_of(folded(empty_model(), before).df, u)
                < u64::MAX by {
                lemma_folded_df_counts_files(empty_model(), before, u);
                lemma_file_holders_bound(before, u);
            }
        }
    }
    lemma_folded_df_counts_files(empty_model(), files, t);
    lemma_folded_consistent(empty_model(), files);
}

/// At most as many files hold a term as there are files.
proof fn lemma_file_holders_bound(files: Seq<SourceFile>, t: Seq<char>)
    ensures
        file_holders(files, t) <= files.len(),
    decreases files.len(),
{
    if files.len() > 0 {
        lemma_file_holders_bound(files.drop_last(), t);
    }
}

/// Indexing fewer files than the largest count into an index of no documents
/// runs no document frequency out.
proof fn lemma_no_overflow_from_nothing(files: Seq<SourceFile>)
    requires
        files.len() < u64::MAX,
    ensures
        forall|k: int| !overflows_at(empty_model(), files, k),
    decreases files.len(),
{
    if files.len() > 0 {
        let rest = files.drop_last();
        lemma_no_overflow_from_nothing(rest);
        assert forall|k: int| !overflows_at(empty_model(), files, k) by {
            if 0 <= k < rest.len() {
                assert(rest.take(k) =~= files.take(k));
                assert(rest[k] == files[k]);
                assert(!overflows_at(empty_model(), rest, k));
            } else if k == rest.len() && file_text(files[k]) is Some {
                assert(files.take(k) =~= rest);
                assert forall|u: Seq<char>| #[trigger] count_of(folded(empty_model(), rest).df, u)
                    < u64::MAX by {
                    lemma_folded_df_counts_files(empty_model(), rest, u);
                    lemma_file_holders_bound(rest, u);
                }
            }
        }
    }
}

/// Indexing files into a model whose document frequencies cover its records
/// keeps them covered, as long as no document frequency runs out.
pub proof fn lemma_folded_consistent(model: ModelView, files: Seq<SourceFile>)
    requires
        consistent(model),
        forall|k: int| !overflows_at(model, files, k),
    ensures
        consistent(folded(model, files)),
    decreases files.len(),
{
    if files.len() > 0 {
        let rest = files.drop_last();
        assert forall|k: int| !overflows_at(model, rest, k) by {
            if 0 <= k < rest.len() {
                assert(rest.take(k) =~= files.take(k));
                assert(rest[k] == files[k]);
                assert(!overflows_at(model, files, k));
            }
        }
        lemma_folded_consistent(model, rest);
        match file_text(files.last()) {
            Some(text) => {
                let k = files.len() - 1;
                assert(files.take(k) =~= rest);
                assert(!overflows_at(model, files, k));
                lemma_merge_keeps_consistent(
                    folded(model, rest),
                    files.last().path@,
                    record_of(terms_of(text)),
                );
            },
            None => {},
        }
    }
}

/// Builds the index of `documents` from nothing.
///
/// Where two documents share a path, the record of the later one stands.
pub fn build_index(documents: &Vec<Document>) -> (model: Model)
    ensures
        model@ == indexed(documents@),
{
    let mut model = Model::new();
    assert(model@ == empty_model());
    let mut i: usize = 0;
    while i < documents.len()
        invariant
            i <= documents.len(),
            model@ == indexed(documents@.take(i as int)),
        decreases documents.len() - i,
    {
        let document = &documents[i];
        proof {
            let before = documents@.take(i as int);
            assert(documents@.take(i + 1).drop_last() =~= before);
            assert(documents@.take(i + 1).last() == *document);
            assert forall|t: Seq<char>| #[trigger] count_of(model@.df, t) < u64::MAX by {
                lemma_indexed_df_bound(before, t);
            }
        }
        let outcome = add_document(&mut model, document.path.clone(), document.text.as_slice());
        assert(outcome is Ok);
        i += 1;
    }
    assert(documents@.take(documents.len() as int) =~= documents@);
    model
}

/// Indexes the files of a folder into `model`, in their order, and returns
/// how many were skipped.
///
/// A file that could not be read, or that is not well-formed XML, is skipped.
/// Indexing stops at the first file that would take a document frequency past
/// the largest count; the files before it stay indexed.
pub fn add_folder_to_model(files: &Vec<SourceFile>, model: &mut Model) -> (outcome: Result<
    usize,
    IndexError,
>)
    ensures
        match outcome {
            Ok(count) => {
                &&& final(model)@ == folded(old(model)@, files@)
                &&& count == skipped(files@)
                &&& forall|k: int| !overflows_at(old(model)@, files@, k)
            },
            Err(_) => exists|k: int|
                {
                    &&& #[trigger] overflows_at(old(model)@, files@, k)
                    &&& final(model)@ == folded(old(model)@, files@.take(k))
                    &&& forall|j: int| 0 <= j < k ==> !overflows_at(old(model)@, files@, j)
                },
        },
{
    let ghost start = model@;
    let mut count: usize = 0;
    let mut i: usize = 0;
    while i < files.len()
        invariant
            i <= files.len(),
            count <= i,
            start == old(model)@,
            model@ == folded(start, files@.take(i as int)),
            count == skipped(files@.take(i as int)),
            forall|k: int| 0 <= k < i ==> !overflows_at(start, files@, k),
        decreases files.len() - i,
    {
        let file = &files[i];
        proof {
            assert(files@.take(i + 1).drop_last() =~= files@.take(i as int));
            assert(files@.take(i + 1).last() == *file);
        }
        let text = match &file.content {
            Some(bytes) => match read_xml_file(bytes.as_slice()) {
                Ok(text) => Some(text),
                Err(_) => None,
            },
            None => None,
        };
        assert(match text {
            Some(text) => file_text(*file) == Some(text@),
            None => file_text(*file) is None,
        });
        match text {
            Some(text) => {
                let chars = to_chars(text.as_str());
                match add_document(model, file.path.clone(), chars.as_slice()) {
                    Ok(()) => {},
                    Err(error) => {
                        proof {
                            let k = i as int;
                            assert(files@.take(k)
                                == files@.take(i as int));
                            assert(overflows_at(start, files@, k) && model@ == folded(
                                start,
                                files@.take(k),
                            ) && forall|j: int| 0 <= j < k ==> !overflows_at(start, files@, j));
                        }
                        return Err(error);
                    },
                }
            },
            None => {
                count += 1;
            },
        }
        i += 1;
    }
    assert(files@.take(files.len() as int) =~= files@);
    Ok(count)
}

} // verus!
