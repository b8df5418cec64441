//! Building an index from a corpus: the bucket plan is chosen from the
//! tokens of a fixed prefix of the documents, and documents are stored in
//! batches of a fixed size.

use crate::corpus::{all_tokens, document_of, documents, lines_of, sample_tokens, Document};
use crate::plan::{
    plan_view, plan_wf, planned_buckets, select_buckets_from, singles_paired, views, Bucket,
    PlanningError,
};
use vstd::prelude::*;

verus! {

/// The number of leading documents whose tokens form the planner's sample.
pub const SAMPLE_DOCUMENTS: usize = 1000;

/// The number of documents per stored batch.
pub const CHUNK_SIZE: usize = 8192;

/// The tokens of the first `n` documents made from `lines`.
pub open spec fn corpus_sample(lines: Seq<Seq<char>>, n: int) -> Seq<Seq<char>>
    decreases n,
{
    if n <= 0 || lines.len() == 0 {
        Seq::empty()
    } else {
        corpus_sample(lines, n - 1) + document_of(lines, n - 1).1
    }
}

proof fn lemma_sample_of_documents(docs: Seq<Document>, lines: Seq<Seq<char>>, k: int)
    requires
        lines.len() > 0,
        0 <= k <= docs.len(),
        forall|i: int| 0 <= i < docs.len() ==> views((#[trigger] docs[i]).1@) == document_of(lines, i).1,
    ensures
        all_tokens(docs.take(k)) == corpus_sample(lines, k),
    decreases k,
{
    if k > 0 {
        lemma_sample_of_documents(docs, lines, k - 1);
        assert(docs.take(k).drop_last() =~= docs.take(k - 1));
        assert(docs.take(k).last() == docs[k - 1]);
    } else {
        assert(docs.take(0) =~= Seq::<Document>::empty());
    }
}

/// Chooses the bucket plan for a corpus from the tokens of its first
/// `SAMPLE_DOCUMENTS` documents.
pub fn plan_for_corpus(corpus: &str, bucket_count: u16) -> (r: Result<Vec<Bucket>, PlanningError>)
    ensures
        ({
            let sample = corpus_sample(lines_of(corpus@), SAMPLE_DOCUMENTS as int);
            &&& sample.len() == 0 <==> r == Err::<Vec<Bucket>, PlanningError>(
                PlanningError::EmptySample,
            )
            &&& sample.len() > 0 && bucket_count == 0 <==> r == Err::<Vec<Bucket>, PlanningError>(
                PlanningError::NoBuckets,
            )
            &&& r is Ok ==> plan_view(r->Ok_0@) == planned_buckets(sample, bucket_count as nat)
            &&& r is Ok ==> plan_wf(plan_view(r->Ok_0@))
            &&& r is Ok ==> singles_paired(plan_view(r->Ok_0@))
        }),
{
    let docs = documents(corpus, SAMPLE_DOCUMENTS);
    let sample = sample_tokens(&docs);
    proof {
        let lines = lines_of(corpus@);
        if lines.len() > 0 {
            lemma_sample_of_documents(docs@, lines, docs@.len() as int);
            assert(docs@.take(docs@.len() as int) =~= docs@);
        } else {
            assert(docs@ =~= Seq::<Document>::empty());
            assert(views(sample@) =~= Seq::<Seq<char>>::empty());
        }
        assert(views(sample@).len() == sample@.len());
    }
    select_buckets_from(sample, bucket_count)
}

} // verus!
