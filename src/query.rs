//! The query planner: recovers the plan from a stored schema, resolves each
//! query token to its bucket column, and joins the per-token conditions.

use crate::corpus::contains_token;
use crate::encode::{all_entries, bucket_tokens, entries, row_of, Batch, CellView, Column};
use crate::order::{compare_tokens, token_le, token_lt};
use crate::plan::{
    bucket_le, bucket_lt, find_bucket, lemma_resolve_in_plan, lemma_resolve_is_last_at_or_below, probe,
    singles_paired, lemma_bucket_order, plan_view, plan_wf, resolve, views, Bucket,
    BucketType, BucketView,
};
use crate::schema::{
    id_column, lemma_schema_round_trip, parse_column, parse_column_name, schema_of, schema_plan,
    ID_COLUMN,
};
use std::cmp::Ordering;
use vstd::prelude::*;
use vstd::string::StringExecFns;

verus! {

/// A condition on one encoded row. Columns are counted as stored: the id
/// column is column 0, bucket `j` is column `j + 1`.
#[derive(Debug, PartialEq, Eq)]
pub enum Predicate {
    False,
    ColumnIsTrue(usize),
    ListContains(usize, String),
    And(Box<Predicate>, Box<Predicate>),
}

pub enum PredicateView {
    False,
    ColumnIsTrue(nat),
    ListContains(nat, Seq<char>),
    And(Box<PredicateView>, Box<PredicateView>),
}

/// Why a stored object cannot be queried as an index.
#[derive(Clone, Copy, Debug, PartialEq, Eq, Structural)]
pub enum QueryError {
    NotAnIndex,
}

impl View for Predicate {
    type V = PredicateView;

    open spec fn view(&self) -> PredicateView
        decreases self,
    {
        match self {
            Predicate::False => PredicateView::False,
            Predicate::ColumnIsTrue(c) => PredicateView::ColumnIsTrue(*c as nat),
            Predicate::ListContains(c, t) => PredicateView::ListContains(*c as nat, t@),
            Predicate::And(a, b) => PredicateView::And(Box::new((**a).view()), Box::new((**b).view())),
        }
    }
}

/// The condition for one query token: where the token has a `Single`
/// bucket of its own, that bucket's flag is set; otherwise the list of the
/// bucket it resolves to holds it.
pub open spec fn atom(p: Seq<BucketView>, t: Seq<char>) -> PredicateView {
    let j = resolve(p, t);
    if p[j] == (t, BucketType::Single) {
        PredicateView::ColumnIsTrue((j + 1) as nat)
    } else {
        PredicateView::ListContains((j + 1) as nat, t)
    }
}

/// The query for a token sequence: the conditions of its tokens joined by
/// `And` from the left; `False` when there are no tokens.
pub open spec fn query_of(p: Seq<BucketView>, toks: Seq<Seq<char>>) -> PredicateView
    decreases toks.len(),
{
    if toks.len() == 0 {
        PredicateView::False
    } else if toks.len() == 1 {
        atom(p, toks[0])
    } else {
        PredicateView::And(Box::new(query_of(p, toks.drop_last())), Box::new(atom(p, toks.last())))
    }
}

/// Whether a row with the given cells satisfies a predicate.
pub open spec fn eval(q: PredicateView, row: Seq<CellView>) -> bool
    decreases q,
{
    match q {
        PredicateView::False => false,
        PredicateView::ColumnIsTrue(c) => 1 <= c <= row.len() && row[c - 1] == CellView::Flag(true),
        PredicateView::ListContains(c, t) => 1 <= c <= row.len() && row[c - 1] is List
            && row[c - 1]->List_0.contains(t),
        PredicateView::And(a, b) => eval(*a, row) && eval(*b, row),
    }
}

/// The ids of the rows that satisfy `q`, in order.
pub open spec fn matching(q: PredicateView, es: Seq<(u64, Seq<CellView>)>) -> Seq<u64>
    decreases es.len(),
{
    if es.len() == 0 {
        Seq::empty()
    } else {
        let m = matching(q, es.drop_last());
        if eval(q, es.last().1) {
            m.push(es.last().0)
        } else {
            m
        }
    }
}

/// Whether `a < b` in the plan order.
fn bucket_less(a: &Bucket, b: &Bucket) -> (r: bool)
    ensures
        r == bucket_lt((a.0@, a.1), (b.0@, b.1)),
{
    proof {
        crate::order::lemma_token_order();
    }
    match compare_tokens(a.0.as_str(), b.0.as_str()) {
        Ordering::Less => true,
        Ordering::Equal => a.1 == BucketType::Single && b.1 == BucketType::Multi,
        Ordering::Greater => false,
    }
}

/// Recovers the bucket plan from the column names of a stored index.
pub fn plan_from_schema(names: &Vec<String>) -> (r: Result<Vec<Bucket>, QueryError>)
    ensures
        r is Err <==> schema_plan(views(names@)) is None,
        r is Ok ==> schema_plan(views(names@)) == Some(plan_view(r->Ok_0@)),
{
    let ghost nv = views(names@);
    if names.len() < 2 {
        return Err(QueryError::NotAnIndex);
    }
    proof {
        reveal_strlit("::id::");
    }
    let id = String::from_str(ID_COLUMN);
    assert(id@ =~= id_column());
    if !(names[0] == id) {
        return Err(QueryError::NotAnIndex);
    }
    let mut plan: Vec<Bucket> = Vec::new();
    let mut i: usize = 1;
    while i < names.len()
        invariant
            nv == views(names@),
            1 <= i <= names@.len(),
            plan@.len() == i - 1,
            forall|k: int| 1 <= k < i ==> #[trigger] parse_column(nv[k]) is Some,
            forall|k: int| 0 <= k < plan@.len() ==> Some(#[trigger] plan_view(plan@)[k]) == parse_column(nv[k + 1]),
            forall|a: int, b: int| 0 <= a < b < plan@.len() ==> bucket_lt(#[trigger] plan_view(plan@)[a], #[trigger] plan_view(plan@)[b]),
        decreases names@.len() - i,
    {
        let parsed = parse_column_name(names[i].as_str());
        assert(nv[i as int] == names@[i as int]@);
        match parsed {
            None => {
                assert(!(parse_column(nv[i as int]) is Some));
                return Err(QueryError::NotAnIndex);
            },
            Some(b) => {
                if i > 1 && !bucket_less(&plan[i - 2], &b) {
                    proof {
                        let p = Seq::new((nv.len() - 1) as nat, |k: int| parse_column(nv[k + 1])->Some_0);
                        assert(p[i - 2] == plan_view(plan@)[i - 2]);
                        assert(p[i - 1] == (b.0@, b.1));
                        assert(!bucket_lt(p[i - 2], p[i - 1]));
                    }
                    return Err(QueryError::NotAnIndex);
                }
                let ghost before = plan@;
                plan.push(b);
                proof {
                    lemma_bucket_order();
                    let pv = plan_view(plan@);
                    assert(pv =~= plan_view(before).push((b.0@, b.1)));
                    assert forall|a: int, c: int| 0 <= a < c < pv.len() implies bucket_lt(#[trigger] pv[a], #[trigger] pv[c]) by {
                        if c == pv.len() - 1 && a < c - 1 {
                            assert(bucket_lt(pv[a], pv[c - 1]));
                        }
                    }
                }
            },
        }
        i = i + 1;
    }
    let last = plan.len() - 1;
    proof {
        let p = Seq::new((nv.len() - 1) as nat, |k: int| parse_column(nv[k + 1])->Some_0);
        assert(p =~= plan_view(plan@));
        assert(p.last() == (plan@[last as int].0@, plan@[last as int].1));
    }
    if plan[last].1 != BucketType::Multi {
        return Err(QueryError::NotAnIndex);
    }
    Ok(plan)
}

/// Builds the condition for one query token.
fn token_condition(plan: &Vec<Bucket>, token: &String) -> (r: Predicate)
    requires
        plan_wf(plan_view(plan@)),
    ensures
        r@ == atom(plan_view(plan@), token@),
{
    let j = find_bucket(plan, token.as_str());
    assert(j < plan.len());
    assert(plan_view(plan@)[j as int] == (plan@[j as int].0@, plan@[j as int].1));
    if plan[j].1 == BucketType::Single && plan[j].0 == *token {
        Predicate::ColumnIsTrue(j + 1)
    } else {
        Predicate::ListContains(j + 1, token.clone())
    }
}

/// Builds the query for a set of tokens: each token resolved to its bucket
/// column as the encoder resolves it, the conditions joined by `And`. An
/// empty set of tokens gives `False`, which no document satisfies.
///
/// A token below every bucket key, where the first bucket is `Single`, is
/// looked up as `ListContains` on that first column, which holds flags: such
/// a query matches no document, though the encoder set the flag for it.
pub fn create_filter(plan: &Vec<Bucket>, tokens: &Vec<String>) -> (r: Predicate)
    requires
        plan_wf(plan_view(plan@)),
    ensures
        r@ == query_of(plan_view(plan@), views(tokens@)),
{
    let ghost p = plan_view(plan@);
    let ghost toks = views(tokens@);
    if tokens.len() == 0 {
        return Predicate::False;
    }
    let mut acc = token_condition(plan, &tokens[0]);
    assert(toks.take(1).drop_last() =~= Seq::<Seq<char>>::empty());
    let mut k: usize = 1;
    while k < tokens.len()
        invariant
            p == plan_view(plan@),
            plan_wf(p),
            toks == views(tokens@),
            1 <= k <= tokens@.len(),
            acc@ == query_of(p, toks.take(k as int)),
        decreases tokens@.len() - k,
    {
        let next = token_condition(plan, &tokens[k]);
        acc = Predicate::And(Box::new(acc), Box::new(next));
        proof {
            assert(toks.take(k + 1).drop_last() =~= toks.take(k as int));
        }
        k = k + 1;
    }
    assert(toks.take(tokens@.len() as int) =~= toks);
    acc
}

impl Predicate {
    /// Evaluates the predicate on row `row` of a batch.
    pub fn evaluate(&self, batch: &Batch, row: usize) -> (r: bool)
        requires
            batch.wf(),
            row < batch.len(),
        ensures
            r == eval(self@, batch.row(row as int)),
        decreases self,
    {
        match self {
            Predicate::False => false,
            Predicate::ColumnIsTrue(c) => {
                if *c == 0 || *c > batch.columns.len() {
                    return false;
                }
                assert(batch.row(row as int)[*c - 1] == crate::encode::column_cell(batch.columns@[*c - 1], row as int));
                match &batch.columns[*c - 1] {
                    Column::Flags(v) => {
                        assert(crate::encode::column_len(batch.columns@[*c - 1]) == batch.len());
                        v[row]
                    },
                    Column::Lists(_) => false,
                }
            },
            Predicate::ListContains(c, t) => {
                if *c == 0 || *c > batch.columns.len() {
                    return false;
                }
                assert(batch.row(row as int)[*c - 1] == crate::encode::column_cell(batch.columns@[*c - 1], row as int));
                match &batch.columns[*c - 1] {
                    Column::Flags(_) => false,
                    Column::Lists(v) => {
                        assert(crate::encode::column_len(batch.columns@[*c - 1]) == batch.len());
                        contains_token(&v[row], t)
                    },
                }
            },
            Predicate::And(a, b) => {
                let x = a.evaluate(batch, row);
                if !x {
                    return false;
                }
                b.evaluate(batch, row)
            },
        }
    }
}

/// The ids of the documents, over all batches in order, that satisfy the
/// predicate.
pub fn matching_ids(predicate: &Predicate, batches: &Vec<Batch>) -> (r: Vec<u64>)
    requires
        forall|k: int| 0 <= k < batches@.len() ==> (#[trigger] batches@[k]).wf(),
    ensures
        r@ == matching(predicate@, all_entries(batches@)),
{
    let ghost q = predicate@;
    let mut ids: Vec<u64> = Vec::new();
    let mut k: usize = 0;
    assert(all_entries(batches@.take(0)) =~= Seq::<(u64, Seq<CellView>)>::empty());
    while k < batches.len()
        invariant
            q == predicate@,
            k <= batches@.len(),
            forall|k: int| 0 <= k < batches@.len() ==> (#[trigger] batches@[k]).wf(),
            ids@ == matching(q, all_entries(batches@.take(k as int))),
        decreases batches@.len() - k,
    {
        let batch = &batches[k];
        let ghost done = all_entries(batches@.take(k as int));
        let mut row: usize = 0;
        assert(entries(*batch).take(0) =~= Seq::<(u64, Seq<CellView>)>::empty());
        assert(done + entries(*batch).take(0) =~= done);
        while row < batch.ids.len()
            invariant
                q == predicate@,
                batch.wf(),
                row <= batch.len(),
                ids@ == matching(q, done + entries(*batch).take(row as int)),
            decreases batch.len() - row,
        {
            let hit = predicate.evaluate(batch, row);
            proof {
                let es = done + entries(*batch).take(row + 1);
                assert(es.drop_last() =~= done + entries(*batch).take(row as int));
                assert(es.last() == (batch.ids@[row as int], batch.row(row as int)));
            }
            if hit {
                ids.push(batch.ids[row]);
            }
            row = row + 1;
        }
        proof {
            assert(batches@.take(k + 1).drop_last() =~= batches@.take(k as int));
            assert(entries(*batch).take(batch.len() as int) =~= entries(*batch));
        }
        k = k + 1;
    }
    assert(batches@.take(batches@.len() as int) =~= batches@);
    ids
}

/// The number of documents, over all batches, that satisfy the predicate.
pub fn count_matches(predicate: &Predicate, batches: &Vec<Batch>) -> (r: usize)
    requires
        forall|k: int| 0 <= k < batches@.len() ==> (#[trigger] batches@[k]).wf(),
    ensures
        r == matching(predicate@, all_entries(batches@)).len(),
{
    matching_ids(predicate, batches).len()
}

/// A token lies in the list of bucket `j` exactly when the document holds
/// it and it resolves to `j`.
proof fn lemma_bucket_tokens_contains(p: Seq<BucketView>, toks: Seq<Seq<char>>, j: int, t: Seq<char>)
    ensures
        bucket_tokens(p, toks, j).contains(t) <==> (toks.contains(t) && resolve(p, t) == j),
    decreases toks.len(),
{
    if toks.len() > 0 {
        lemma_bucket_tokens_contains(p, toks.drop_last(), j, t);
        let rest = bucket_tokens(p, toks.drop_last(), j);
        assert(toks =~= toks.drop_last().push(toks.last()));
        let bt = bucket_tokens(p, toks, j);
        if toks.contains(t) && resolve(p, t) == j {
            let k = choose|k: int| 0 <= k < toks.len() && toks[k] == t;
            if k < toks.len() - 1 {
                assert(toks.drop_last()[k] == t);
                assert(toks.drop_last().contains(t));
                assert(rest.contains(t));
                let k2 = choose|k2: int| 0 <= k2 < rest.len() && rest[k2] == t;
                assert(bt[k2] == t);
            } else {
                assert(bt == rest.push(t));
                assert(bt[bt.len() - 1] == t);
            }
            assert(bt.contains(t));
        }
        if bucket_tokens(p, toks, j).contains(t) {
            if rest.contains(t) {
                let k = choose|k: int| 0 <= k < toks.drop_last().len() && toks.drop_last()[k] == t;
                assert(toks[k] == t);
            } else {
                assert(resolve(p, toks.last()) == j);
                assert(bucket_tokens(p, toks, j) == rest.push(toks.last()));
                let k = choose|k: int| 0 <= k < bucket_tokens(p, toks, j).len() && bucket_tokens(p, toks, j)[k] == t;
                if k < rest.len() {
                    assert(rest[k] == t);
                }
                assert(toks[toks.len() - 1] == t);
            }
        }
    }
}

/// A single-token query against a `Multi` bucket is exact: the row of a
/// document satisfies it exactly when the document holds the token.
pub proof fn lemma_list_query_exact(p: Seq<BucketView>, toks: Seq<Seq<char>>, t: Seq<char>)
    requires
        plan_wf(p),
        p[resolve(p, t)].1 == BucketType::Multi,
    ensures
        query_of(p, seq![t]) == atom(p, t),
        eval(atom(p, t), row_of(p, toks)) <==> toks.contains(t),
{
    lemma_resolve_in_plan(p, t);
    lemma_bucket_tokens_contains(p, toks, resolve(p, t), t);
}

/// A token at or above the first key of a plan whose `Single` buckets are
/// paired resolves either to its own `Single` bucket or to a `Multi` bucket.
proof fn lemma_atom_column_type(p: Seq<BucketView>, t: Seq<char>)
    requires
        plan_wf(p),
        singles_paired(p),
        p[0].1 == BucketType::Multi || token_le(p[0].0, t),
    ensures
        p[resolve(p, t)] == (t, BucketType::Single) || p[resolve(p, t)].1 == BucketType::Multi,
{
    lemma_resolve_in_plan(p, t);
    lemma_resolve_is_last_at_or_below(p, t);
    lemma_bucket_order();
    crate::order::lemma_token_order();
    let j = resolve(p, t);
    if p[j] != (t, BucketType::Single) && p[j].1 == BucketType::Single {
        let k = p[j].0;
        if bucket_le(p[j], probe(t)) {
            assert(token_lt(k, t));
            assert(p[j + 1] == (k, BucketType::Multi));
            assert(!bucket_le(p[j + 1], probe(t)));
            assert(bucket_lt(probe(t), p[j + 1]));
        } else {
            assert(!bucket_le(p[0], probe(t)));
        }
    }
}

/// No false negatives: a document that holds every token of a non-empty
/// query satisfies that query, where the plan follows each `Single` bucket
/// with the `Multi` bucket of its key and no query token lies below a
/// `Single` first bucket.
pub proof fn lemma_query_finds_document(p: Seq<BucketView>, toks: Seq<Seq<char>>, q: Seq<Seq<char>>)
    requires
        plan_wf(p),
        singles_paired(p),
        q.len() > 0,
        forall|i: int| 0 <= i < q.len() ==> toks.contains(#[trigger] q[i]),
        p[0].1 == BucketType::Multi || forall|i: int| 0 <= i < q.len() ==> token_le(p[0].0, #[trigger] q[i]),
    ensures
        eval(query_of(p, q), row_of(p, toks)),
    decreases q.len(),
{
    let t = q.last();
    assert(toks.contains(q[q.len() - 1]));
    if p[0].1 != BucketType::Multi {
        assert(token_le(p[0].0, q[q.len() - 1]));
    }
    lemma_resolve_in_plan(p, t);
    lemma_atom_column_type(p, t);
    lemma_bucket_tokens_contains(p, toks, resolve(p, t), t);
    assert(bucket_tokens(p, toks, resolve(p, t)).contains(t));
    assert(eval(atom(p, t), row_of(p, toks)));
    if q.len() > 1 {
        let q1 = q.drop_last();
        assert forall|i: int| 0 <= i < q1.len() implies toks.contains(#[trigger] q1[i]) && (p[0].1
            == BucketType::Multi || token_le(p[0].0, q1[i])) by {
            assert(q1[i] == q[i]);
        }
        lemma_query_finds_document(p, toks, q1);
    }
}

/// The query planner and the encoder agree: the plan read back from the
/// schema written for a plan is that plan, and the column that a query
/// token is looked up in is the column the encoder put that token in.
pub proof fn lemma_query_uses_encoder_bucket(p: Seq<BucketView>, t: Seq<char>)
    requires
        plan_wf(p),
    ensures
        schema_plan(schema_of(p)) == Some(p),
        query_of(p, seq![t]) == atom(p, t),
        atom(p, t) == (if p[resolve(p, t)] == (t, BucketType::Single) {
            PredicateView::ColumnIsTrue((resolve(p, t) + 1) as nat)
        } else {
            PredicateView::ListContains((resolve(p, t) + 1) as nat, t)
        }),
        forall|toks: Seq<Seq<char>>|
            toks.contains(t) ==> #[trigger] bucket_tokens(p, toks, resolve(p, t)).contains(t),
{
    lemma_schema_round_trip(p);
    assert forall|toks: Seq<Seq<char>>| toks.contains(t) implies #[trigger] bucket_tokens(p, toks, resolve(p, t)).contains(t) by {
        lemma_bucket_tokens_contains(p, toks, resolve(p, t), t);
    }
}

/// An empty query is `False`: no row satisfies it, so it matches nothing.
pub proof fn lemma_empty_query_matches_nothing(p: Seq<BucketView>, es: Seq<(u64, Seq<CellView>)>)
    ensures
        query_of(p, Seq::empty()) == PredicateView::False,
        matching(query_of(p, Seq::empty()), es).len() == 0,
    decreases es.len(),
{
    if es.len() > 0 {
        lemma_empty_query_matches_nothing(p, es.drop_last());
    }
}

} // verus!
