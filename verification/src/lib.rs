//! A full-text search index over a corpus of documents, ranked by TF-IDF.
//!
//! - `lexer` turns text into normalized terms.
//! - `table` is the map from strings that the index is made of.
//! - `model` holds the term frequencies of each document and the document
//!   frequencies of the corpus, and folds one document into them.
//! - `extract` gets the plain text out of an XML document.
//! - `indexer` folds whole corpora into the model.
//! - `rank` finds the documents that a query can match, works out what their
//!   scores are made of, and orders the scored documents.
//! - `agreement` shows that two searches give the same ranking.
//! - `json` and `codec` write the index as JSON and read it back.
//! - `routes` tells the requests of a search server apart.

pub mod agreement;
pub mod codec;
pub mod extract;
pub mod indexer;
pub mod json;
pub mod lexer;
pub mod model;
pub mod rank;
pub mod routes;
pub mod table;
