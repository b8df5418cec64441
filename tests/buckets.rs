use std::cmp::Ordering;

use token_buckets::{
    compare_tokens, count_matches, create_filter, document_text, documents, encode_chunk,
    encode_documents, find_bucket, plan_for_corpus, matching_ids, parse_column_name, plan_from_schema,
    chunk_bounds, distinct_tokens, sample_tokens, schema_names, select_buckets_from, tokenize, Batch, Bucket, BucketType, Column, Corpus,
    Document, PlanningError, Predicate, QueryError, CHUNK_SIZE, ID_COLUMN, SAMPLE_DOCUMENTS,
};

fn strings(items: &[&str]) -> Vec<String> {
    items.iter().map(|s| s.to_string()).collect()
}

fn bucket(key: &str, ty: BucketType) -> Bucket {
    (key.to_string(), ty)
}

fn doc(id: u64, tokens: &[&str]) -> Document {
    (id, strings(tokens))
}

fn ids_of(batches: &[Batch]) -> Vec<u64> {
    batches.iter().flat_map(|b| b.ids.clone()).collect()
}

/// The cells of every row, over all batches, in row order.
fn rows_of(batches: &[Batch]) -> Vec<Vec<String>> {
    let mut rows = Vec::new();
    for b in batches {
        for r in 0..b.ids.len() {
            let mut row = Vec::new();
            for c in &b.columns {
                match c {
                    Column::Flags(v) => row.push(format!("{}", v[r])),
                    Column::Lists(v) => row.push(v[r].join(",")),
                }
            }
            rows.push(row);
        }
    }
    rows
}

#[test]
fn plan_from_quantile_candidates() {
    let plan = select_buckets_from(strings(&["a", "a", "b", "c", "c", "c"]), 3).unwrap();
    assert_eq!(
        plan,
        vec![
            bucket("a", BucketType::Multi),
            bucket("b", BucketType::Multi),
            bucket("c", BucketType::Multi),
        ]
    );
}

#[test]
fn plan_sorts_the_sample_first() {
    let plan = select_buckets_from(strings(&["c", "b", "c", "a", "c", "a"]), 3).unwrap();
    assert_eq!(
        plan,
        vec![
            bucket("a", BucketType::Multi),
            bucket("b", BucketType::Multi),
            bucket("c", BucketType::Multi),
        ]
    );
}

#[test]
fn plan_repeated_candidate_becomes_single() {
    let plan = select_buckets_from(strings(&["a", "a", "a", "a", "b", "c"]), 3).unwrap();
    assert_eq!(
        plan,
        vec![
            bucket("a", BucketType::Single),
            bucket("a", BucketType::Multi),
            bucket("b", BucketType::Multi),
        ]
    );
}

#[test]
fn plan_run_of_equal_candidates_emits_single_once() {
    let plan = select_buckets_from(strings(&["x"; 6]), 3).unwrap();
    assert_eq!(
        plan,
        vec![bucket("x", BucketType::Single), bucket("x", BucketType::Multi)]
    );
}

#[test]
fn plan_with_one_bucket() {
    let plan = select_buckets_from(strings(&["m", "a", "z"]), 1).unwrap();
    assert_eq!(plan, vec![bucket("a", BucketType::Multi)]);
}

#[test]
fn plan_more_buckets_than_tokens() {
    let plan = select_buckets_from(strings(&["b", "a"]), 4).unwrap();
    // Candidates at positions 0, 0, 1, 1: "a", "a", "b", "b".
    assert_eq!(
        plan,
        vec![
            bucket("a", BucketType::Single),
            bucket("a", BucketType::Multi),
            bucket("b", BucketType::Single),
            bucket("b", BucketType::Multi),
        ]
    );
}

#[test]
fn plan_shape_holds_on_a_larger_sample() {
    let words = tokenize("the quick brown fox jumps over the lazy dog and the cat sat on the mat again and again");
    let mut sample = Vec::new();
    for _ in 0..5 {
        sample.extend(words.iter().cloned());
    }
    for count in 1..40u16 {
        let plan = select_buckets_from(sample.clone(), count).unwrap();
        assert!(plan.len() <= count as usize);
        assert_eq!(plan.last().unwrap().1, BucketType::Multi);
        for w in plan.windows(2) {
            assert!(w[0] < w[1], "{:?} not below {:?}", w[0], w[1]);
        }
    }
}

#[test]
fn plan_rejects_empty_sample() {
    assert_eq!(select_buckets_from(Vec::new(), 3), Err(PlanningError::EmptySample));
    assert_eq!(select_buckets_from(Vec::new(), 0), Err(PlanningError::EmptySample));
}

#[test]
fn plan_rejects_zero_buckets() {
    assert_eq!(select_buckets_from(strings(&["a"]), 0), Err(PlanningError::NoBuckets));
}

#[test]
fn tokens_compare_by_bytes() {
    assert_eq!(compare_tokens("a", "b"), Ordering::Less);
    assert_eq!(compare_tokens("a", "a0"), Ordering::Less);
    assert_eq!(compare_tokens("b", "a0"), Ordering::Greater);
    assert_eq!(compare_tokens("abc", "abc"), Ordering::Equal);
    assert_eq!(compare_tokens("", "a"), Ordering::Less);
    assert_eq!(compare_tokens("é", "z"), Ordering::Greater);
    assert_eq!(compare_tokens("Z", "a"), Ordering::Less);
}

#[test]
fn token_below_every_key_goes_to_first_bucket() {
    let plan = vec![bucket("m", BucketType::Multi), bucket("t", BucketType::Multi)];
    assert_eq!(find_bucket(&plan, "a"), 0);
    assert_eq!(find_bucket(&plan, ""), 0);
}

#[test]
fn find_bucket_resolution() {
    let plan = vec![
        bucket("b", BucketType::Multi),
        bucket("d", BucketType::Single),
        bucket("d", BucketType::Multi),
        bucket("f", BucketType::Multi),
    ];
    assert_eq!(find_bucket(&plan, "a"), 0);
    assert_eq!(find_bucket(&plan, "b"), 0);
    assert_eq!(find_bucket(&plan, "c"), 0);
    assert_eq!(find_bucket(&plan, "d"), 1);
    assert_eq!(find_bucket(&plan, "da"), 2);
    assert_eq!(find_bucket(&plan, "e"), 2);
    assert_eq!(find_bucket(&plan, "f"), 2);
    assert_eq!(find_bucket(&plan, "fa"), 3);
    assert_eq!(find_bucket(&plan, "zzz"), 3);
}

#[test]
fn column_names_encode_type() {
    assert_eq!(BucketType::Single.column_name("foo"), "foo:0");
    assert_eq!(BucketType::Multi.column_name("foo"), "foo:1");
    assert_eq!(BucketType::Multi.column_name("10:30"), "10:30:1");
}

#[test]
fn column_names_read_back() {
    assert_eq!(parse_column_name("foo:0"), Some(bucket("foo", BucketType::Single)));
    assert_eq!(parse_column_name("10:30:1"), Some(bucket("10:30", BucketType::Multi)));
    assert_eq!(parse_column_name(":1"), Some(bucket("", BucketType::Multi)));
    assert_eq!(parse_column_name(ID_COLUMN), None);
    assert_eq!(parse_column_name("foo:2"), None);
    assert_eq!(parse_column_name("foo1"), None);
    assert_eq!(parse_column_name("1"), None);
    assert_eq!(parse_column_name(""), None);
}

#[test]
fn schema_lists_id_then_buckets() {
    let plan = vec![
        bucket("a", BucketType::Single),
        bucket("a", BucketType::Multi),
        bucket("b", BucketType::Multi),
    ];
    assert_eq!(schema_names(&plan), strings(&["::id::", "a:0", "a:1", "b:1"]));
    assert_eq!(plan_from_schema(&schema_names(&plan)), Ok(plan));
}

#[test]
fn schema_round_trip_keeps_digit_suffixed_keys() {
    // "a:1" sorts after "a5:1" as text, but the plan order is by key.
    let plan = vec![bucket("a", BucketType::Multi), bucket("a5", BucketType::Multi)];
    let names = schema_names(&plan);
    assert_eq!(plan_from_schema(&names), Ok(plan.clone()));
    let filter = create_filter(&plan, &strings(&["a3"]));
    assert_eq!(filter, Predicate::ListContains(1, "a3".to_string()));
}

#[test]
fn schema_without_id_column_is_not_an_index() {
    assert_eq!(plan_from_schema(&strings(&["a:1"])), Err(QueryError::NotAnIndex));
    assert_eq!(plan_from_schema(&strings(&["id", "a:1"])), Err(QueryError::NotAnIndex));
    assert_eq!(plan_from_schema(&strings(&["::id::"])), Err(QueryError::NotAnIndex));
    assert_eq!(plan_from_schema(&Vec::new()), Err(QueryError::NotAnIndex));
}

#[test]
fn schema_with_bad_columns_is_not_an_index() {
    // A name that is no bucket.
    assert_eq!(plan_from_schema(&strings(&["::id::", "a:1", "b"])), Err(QueryError::NotAnIndex));
    // Buckets out of order.
    assert_eq!(plan_from_schema(&strings(&["::id::", "b:1", "a:1"])), Err(QueryError::NotAnIndex));
    // A repeated bucket.
    assert_eq!(plan_from_schema(&strings(&["::id::", "a:1", "a:1"])), Err(QueryError::NotAnIndex));
    // Ending in a Single bucket.
    assert_eq!(plan_from_schema(&strings(&["::id::", "a:1", "b:0"])), Err(QueryError::NotAnIndex));
}

#[test]
fn tokenize_normalizes_words() {
    assert_eq!(tokenize("Hello, world! HELLO"), strings(&["hello", "world"]));
    assert_eq!(tokenize("  don't   stop...  "), strings(&["don't", "stop"]));
    assert_eq!(tokenize("-- ... !!"), Vec::<String>::new());
    assert_eq!(tokenize(""), Vec::<String>::new());
    assert_eq!(tokenize("ÉCOLE\tÉcole\nx"), strings(&["école", "x"]));
    assert_eq!(tokenize("(1984)"), strings(&["1984"]));
}

#[test]
fn documents_cycle_through_lines() {
    let corpus = "A b\nc\r\n\nd a";
    let docs = documents(corpus, 6);
    assert_eq!(docs.len(), 6);
    let ids: Vec<u64> = docs.iter().map(|d| d.0).collect();
    assert_eq!(ids, vec![0, 1, 2, 3, 4, 5]);
    assert_eq!(docs[0].1, strings(&["a", "b"]));
    assert_eq!(docs[1].1, strings(&["c"]));
    assert_eq!(docs[2].1, Vec::<String>::new());
    assert_eq!(docs[3].1, strings(&["d", "a"]));
    assert_eq!(docs[4].1, strings(&["a", "b"]));
    assert_eq!(docs[5].1, strings(&["c"]));
}

#[test]
fn documents_of_empty_corpus() {
    assert!(documents("", 5).is_empty());
    assert!(documents("a\n", 0).is_empty());
    assert_eq!(documents("a\n", 2).len(), 2);
}

#[test]
fn sample_is_all_tokens_in_order() {
    let docs = vec![doc(0, &["b", "a"]), doc(1, &[]), doc(2, &["a", "c"])];
    assert_eq!(sample_tokens(&docs), strings(&["b", "a", "a", "c"]));
}

#[test]
fn document_text_joins_tokens() {
    assert_eq!(document_text(&strings(&["foo", "bar"])), "foo bar");
    assert_eq!(document_text(&strings(&["foo"])), "foo");
    assert_eq!(document_text(&Vec::new()), "");
}

fn sample_plan() -> Vec<Bucket> {
    vec![
        bucket("a", BucketType::Single),
        bucket("a", BucketType::Multi),
        bucket("m", BucketType::Multi),
    ]
}

#[test]
fn encode_fills_flags_and_lists() {
    let plan = sample_plan();
    let docs = vec![doc(7, &["q", "a", "b", "z"]), doc(9, &["0", "ab"]), doc(11, &[])];
    let batch = encode_chunk(&plan, &docs);
    assert_eq!(batch.ids, vec![7, 9, 11]);
    assert_eq!(batch.columns.len(), 3);
    // "0" is below every key and goes to bucket 0, a Single bucket.
    assert_eq!(batch.columns[0], Column::Flags(vec![true, true, false]));
    assert_eq!(
        batch.columns[1],
        Column::Lists(vec![strings(&["b"]), strings(&["ab"]), vec![]])
    );
    assert_eq!(
        batch.columns[2],
        Column::Lists(vec![strings(&["q", "z"]), vec![], vec![]])
    );
}

#[test]
fn encode_in_chunks_is_chunk_independent() {
    let plan = sample_plan();
    let docs: Vec<Document> = (0..7u64)
        .map(|i| doc(i, if i % 2 == 0 { &["a", "x"] } else { &["b", "c", "n"] }))
        .collect();
    let whole = encode_documents(&plan, &docs, 100);
    assert_eq!(whole.len(), 1);
    for size in 1..9usize {
        let batches = encode_documents(&plan, &docs, size);
        assert_eq!(batches.len(), docs.len() / size + 1);
        assert_eq!(ids_of(&batches), (0..7u64).collect::<Vec<_>>());
        assert_eq!(rows_of(&batches), rows_of(&whole));
        let (last, full) = batches.split_last().unwrap();
        assert!(full.iter().all(|b| b.ids.len() == size));
        assert_eq!(last.ids.len(), docs.len() % size);
        assert_eq!(last.columns.len(), plan.len());
    }
    let again = encode_documents(&plan, &docs, 3);
    assert_eq!(again, encode_documents(&plan, &docs, 3));
}

#[test]
fn encode_no_documents() {
    let plan = sample_plan();
    let batches = encode_documents(&plan, &Vec::new(), 4);
    assert_eq!(batches.len(), 1);
    assert!(batches[0].ids.is_empty());
    assert_eq!(batches[0].columns.len(), 3);
    let batch = encode_chunk(&plan, &Vec::new());
    assert!(batch.ids.is_empty());
    assert_eq!(batch.columns.len(), 3);
}

#[test]
fn single_document_found_by_its_token() {
    let plan = select_buckets_from(strings(&["foo"]), 1).unwrap();
    assert_eq!(plan, vec![bucket("foo", BucketType::Multi)]);
    let batches = encode_documents(&plan, &vec![doc(42, &["foo", "bar"])], 8192);
    let recovered = plan_from_schema(&schema_names(&plan)).unwrap();
    let hit = create_filter(&recovered, &strings(&["foo"]));
    assert_eq!(hit, Predicate::ListContains(1, "foo".to_string()));
    assert_eq!(matching_ids(&hit, &batches), vec![42]);
    let miss = create_filter(&recovered, &strings(&["baz"]));
    assert_eq!(matching_ids(&miss, &batches), Vec::<u64>::new());
    assert_eq!(count_matches(&miss, &batches), 0);
}

#[test]
fn empty_query_is_false_and_matches_nothing() {
    let plan = sample_plan();
    let batches = encode_documents(&plan, &vec![doc(1, &["a"]), doc(2, &["b"])], 1);
    let filter = create_filter(&plan, &Vec::new());
    assert_eq!(filter, Predicate::False);
    assert_eq!(count_matches(&filter, &batches), 0);
}

#[test]
fn list_query_is_exact_within_a_bucket() {
    let plan = sample_plan();
    let docs = vec![doc(1, &["foo", "x"]), doc(2, &["fob", "x"]), doc(3, &["q"]), doc(4, &["foo"])];
    let batches = encode_documents(&plan, &docs, 2);
    let filter = create_filter(&plan, &strings(&["foo"]));
    assert_eq!(filter, Predicate::ListContains(2, "foo".to_string()));
    assert_eq!(matching_ids(&filter, &batches), vec![1, 4]);
}

#[test]
fn single_query_checks_the_flag() {
    let plan = sample_plan();
    let docs = vec![doc(1, &["a", "x"]), doc(2, &["b"]), doc(3, &["0"])];
    let batches = encode_documents(&plan, &docs, 2);
    let filter = create_filter(&plan, &strings(&["a"]));
    assert_eq!(filter, Predicate::ColumnIsTrue(1));
    // Document 3 sets the flag too: its token fell into the first bucket.
    assert_eq!(matching_ids(&filter, &batches), vec![1, 3]);
}

#[test]
fn conjunction_of_tokens() {
    let plan = sample_plan();
    let docs = vec![doc(1, &["b", "x"]), doc(2, &["b"]), doc(3, &["x", "b", "y"])];
    let batches = encode_documents(&plan, &docs, 2);
    let filter = create_filter(&plan, &strings(&["b", "x"]));
    assert_eq!(
        filter,
        Predicate::And(
            Box::new(Predicate::ListContains(2, "b".to_string())),
            Box::new(Predicate::ListContains(3, "x".to_string()))
        )
    );
    assert_eq!(matching_ids(&filter, &batches), vec![1, 3]);
    assert_eq!(count_matches(&filter, &batches), 2);
}

#[test]
fn query_through_a_planned_index() {
    let corpus = "the cat sat\nthe dog ran\na cat ran\nthe end";
    let docs = documents(corpus, 8);
    let plan = select_buckets_from(sample_tokens(&docs), 4).unwrap();
    let batches = encode_documents(&plan, &docs, 3);
    let recovered = plan_from_schema(&schema_names(&plan)).unwrap();
    assert_eq!(recovered, plan);
    for (query, expected) in [
        ("cat", vec![0, 2, 4, 6]),
        ("cat ran", vec![2, 6]),
        ("The END", vec![3, 7]),
        ("zebra", vec![]),
    ] {
        let filter = create_filter(&recovered, &tokenize(query));
        let found = matching_ids(&filter, &batches);
        // The index may over-approximate through Single buckets, never miss.
        for id in &expected {
            assert!(found.contains(id), "{query}: {id} missing from {found:?}");
        }
    }
}

#[test]
fn predicate_evaluates_rows() {
    let plan = sample_plan();
    let batch = encode_chunk(&plan, &vec![doc(5, &["a", "q"]), doc(6, &["b"])]);
    assert!(Predicate::ColumnIsTrue(1).evaluate(&batch, 0));
    assert!(!Predicate::ColumnIsTrue(1).evaluate(&batch, 1));
    assert!(!Predicate::ColumnIsTrue(2).evaluate(&batch, 0));
    assert!(!Predicate::ColumnIsTrue(0).evaluate(&batch, 0));
    assert!(!Predicate::ColumnIsTrue(9).evaluate(&batch, 0));
    assert!(Predicate::ListContains(3, "q".to_string()).evaluate(&batch, 0));
    assert!(!Predicate::ListContains(3, "q".to_string()).evaluate(&batch, 1));
    assert!(!Predicate::ListContains(1, "a".to_string()).evaluate(&batch, 0));
    assert!(!Predicate::False.evaluate(&batch, 0));
}

#[test]
fn corpus_plan_samples_the_leading_documents() {
    assert_eq!(SAMPLE_DOCUMENTS, 1000);
    assert_eq!(CHUNK_SIZE, 8192);
    let plan = plan_for_corpus("b a\nc", 2).unwrap();
    // The sample holds "a", "b" and "c" 500 times each; the candidates sit
    // at positions 0 and 750 of the sorted 1500.
    assert_eq!(plan, vec![bucket("a", BucketType::Multi), bucket("b", BucketType::Multi)]);
    assert_eq!(plan_for_corpus("", 2), Err(PlanningError::EmptySample));
    assert_eq!(plan_for_corpus("...\n--", 2), Err(PlanningError::EmptySample));
    assert_eq!(plan_for_corpus("a", 0), Err(PlanningError::NoBuckets));
}

#[test]
fn token_below_a_single_first_bucket_is_looked_up_as_a_list() {
    let plan = select_buckets_from(strings(&["b", "b"]), 2).unwrap();
    assert_eq!(plan, vec![bucket("b", BucketType::Single), bucket("b", BucketType::Multi)]);
    let filter = create_filter(&plan, &strings(&["a"]));
    assert_eq!(filter, Predicate::ListContains(1, "a".to_string()));
    // The first column holds flags, so the lookup finds nothing.
    let batches = encode_documents(&plan, &vec![doc(1, &["a"]), doc(2, &["b"])], 4);
    assert_eq!(matching_ids(&filter, &batches), Vec::<u64>::new());
    let own = create_filter(&plan, &strings(&["b"]));
    assert_eq!(own, Predicate::ColumnIsTrue(1));
    assert_eq!(matching_ids(&own, &batches), vec![1, 2]);
    let above = create_filter(&plan, &strings(&["c"]));
    assert_eq!(above, Predicate::ListContains(2, "c".to_string()));
}

#[test]
fn corpus_hands_out_document_ranges() {
    let corpus = Corpus::new("x y\nz");
    let docs = corpus.documents(3, 6);
    let ids: Vec<u64> = docs.iter().map(|d| d.0).collect();
    assert_eq!(ids, vec![3, 4, 5]);
    assert_eq!(docs[0].1, strings(&["z"]));
    assert_eq!(docs[1].1, strings(&["x", "y"]));
    assert!(corpus.documents(4, 4).is_empty());
    assert!(Corpus::new("").documents(0, 3).is_empty());
}

#[test]
fn tokenize_splits_at_unicode_whitespace_only() {
    assert_eq!(
        tokenize("a\u{a0}b\u{3000}c\u{200b}d\u{85}e"),
        strings(&["a", "b", "c\u{200b}d", "e"])
    );
}

#[test]
fn chunk_bounds_close_with_the_rest() {
    assert_eq!(chunk_bounds(10, 4), vec![(0, 4), (4, 8), (8, 10)]);
    assert_eq!(chunk_bounds(8, 4), vec![(0, 4), (4, 8), (8, 8)]);
    assert_eq!(chunk_bounds(0, 4), vec![(0, 0)]);
    assert_eq!(chunk_bounds(3, 1), vec![(0, 1), (1, 2), (2, 3), (3, 3)]);
}

#[test]
fn document_count_a_multiple_of_the_chunk_size_ends_with_an_empty_batch() {
    let plan = sample_plan();
    let docs: Vec<Document> = (0..4u64).map(|i| doc(i, &["a"])).collect();
    let batches = encode_documents(&plan, &docs, 2);
    let sizes: Vec<usize> = batches.iter().map(|b| b.ids.len()).collect();
    assert_eq!(sizes, vec![2, 2, 0]);
    assert!(batches[2].columns.iter().all(|c| match c {
        Column::Flags(v) => v.is_empty(),
        Column::Lists(v) => v.is_empty(),
    }));
}

#[test]
fn distinct_tokens_keep_first_occurrences() {
    assert_eq!(
        distinct_tokens(&strings(&["b", "a", "b", "c", "a"])),
        strings(&["b", "a", "c"])
    );
    assert_eq!(distinct_tokens(&Vec::new()), Vec::<String>::new());
    assert_eq!(distinct_tokens(&strings(&["école", "école"])), strings(&["école"]));
}
