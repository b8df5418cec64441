//! A bucketed, column-oriented approximation of an inverted index over
//! token sets.
//!
//! A bucket plan is chosen once from a sample of tokens; documents are then
//! encoded into batches with one column per bucket, and a query's tokens
//! are resolved to bucket columns by the same rule the encoder used.

pub mod corpus;
pub mod encode;
pub mod index;
pub mod order;
pub mod plan;
pub mod query;
pub mod schema;

pub use corpus::{distinct_tokens, document_text, documents, sample_tokens, tokenize, Corpus, Document};
pub use encode::{chunk_bounds, encode_chunk, encode_documents, Batch, Column};
pub use index::{plan_for_corpus, CHUNK_SIZE, SAMPLE_DOCUMENTS};
pub use order::compare_tokens;
pub use plan::{find_bucket, select_buckets_from, Bucket, BucketType, PlanningError};
pub use query::{count_matches, create_filter, matching_ids, plan_from_schema, Predicate, QueryError};
pub use schema::{parse_column_name, schema_names, ID_COLUMN};
