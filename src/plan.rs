//! Bucket plans: choosing bucket boundaries from a token sample, and
//! resolving a token to the one bucket that holds it.

use crate::order::{compare_tokens, lemma_token_order, token_le, token_lt};
use std::cmp::Ordering;
use vstd::prelude::*;
use vstd::relations::total_ordering;

verus! {

/// How a bucket is stored per document: a presence flag, or the list of
/// the document's tokens that fall into it. `Single` sorts first.
#[derive(Clone, Copy, Debug, PartialEq, Eq, Structural, PartialOrd, Ord, Hash)]
pub enum BucketType {
    Single,
    Multi,
}

/// A bucket boundary together with its storage shape.
pub type Bucket = (String, BucketType);

/// The mathematical value of a bucket.
pub type BucketView = (Seq<char>, BucketType);

/// Why no plan could be made.
#[derive(Clone, Copy, Debug, PartialEq, Eq, Structural)]
pub enum PlanningError {
    EmptySample,
    NoBuckets,
}

pub open spec fn views(s: Seq<String>) -> Seq<Seq<char>> {
    s.map_values(|x: String| x@)
}

pub open spec fn bucket_view(b: Bucket) -> BucketView {
    (b.0@, b.1)
}

pub open spec fn plan_view(p: Seq<Bucket>) -> Seq<BucketView> {
    p.map_values(|b: Bucket| bucket_view(b))
}

/// Buckets ordered by key, then `Single` before `Multi`.
pub open spec fn bucket_lt(a: BucketView, b: BucketView) -> bool {
    token_lt(a.0, b.0) || (a.0 == b.0 && a.1 == BucketType::Single && b.1 == BucketType::Multi)
}

pub open spec fn bucket_le(a: BucketView, b: BucketView) -> bool {
    bucket_lt(a, b) || a == b
}

/// A usable plan: non-empty, strictly increasing, and closed by a `Multi`
/// bucket, which takes every token above its key.
pub open spec fn plan_wf(p: Seq<BucketView>) -> bool {
    &&& p.len() > 0
    &&& forall|i: int, j: int| 0 <= i < j < p.len() ==> bucket_lt(#[trigger] p[i], #[trigger] p[j])
    &&& p.last().1 == BucketType::Multi
}

/// Each `Single` bucket is directly followed by the `Multi` bucket of the
/// same key.
pub open spec fn singles_paired(p: Seq<BucketView>) -> bool {
    forall|j: int|
        0 <= j < p.len() && (#[trigger] p[j]).1 == BucketType::Single ==> j + 1 < p.len() && p[j + 1] == (
            p[j].0,
            BucketType::Multi,
        )
}

/// The key that a token is looked up with.
pub open spec fn probe(t: Seq<char>) -> BucketView {
    (t, BucketType::Single)
}

/// The bucket a token belongs to: the last bucket at or below
/// `(token, Single)`, or bucket 0 when there is none.
pub open spec fn resolve(p: Seq<BucketView>, t: Seq<char>) -> int
    decreases p.len(),
{
    if p.len() <= 1 {
        0
    } else if bucket_le(p.last(), probe(t)) {
        p.len() - 1
    } else {
        resolve(p.drop_last(), t)
    }
}

/// The sample in ascending token order.
pub open spec fn sorted_tokens(s: Seq<Seq<char>>) -> Seq<Seq<char>> {
    s.sort_by(|a: Seq<char>, b: Seq<char>| token_le(a, b))
}

/// The boundary candidates: the token at position `floor(i * len / k)` of
/// the sorted sample, for each of the `k` quantile ranges.
pub open spec fn candidates(s: Seq<Seq<char>>, k: nat) -> Seq<Seq<char>> {
    Seq::new(k, |i: int| s[i * s.len() / (k as int)])
}

/// The buckets emitted after walking the first `n` candidates, and whether
/// a `Single` bucket has been emitted for the current candidate.
pub open spec fn walk(c: Seq<Seq<char>>, n: int) -> (Seq<BucketView>, bool)
    decreases n,
{
    if n <= 1 {
        (Seq::empty(), false)
    } else {
        let (out, single) = walk(c, n - 1);
        let previous = c[n - 2];
        let candidate = c[n - 1];
        if candidate != previous {
            (out.push((previous, BucketType::Multi)), false)
        } else if !single {
            (out.push((previous, BucketType::Single)), true)
        } else {
            (out, single)
        }
    }
}

/// The plan made from a candidate sequence: the walk, closed by the last
/// candidate as a `Multi` bucket.
pub open spec fn plan_of_candidates(c: Seq<Seq<char>>) -> Seq<BucketView> {
    walk(c, c.len() as int).0.push((c.last(), BucketType::Multi))
}

pub open spec fn planned_buckets(sample: Seq<Seq<char>>, count: nat) -> Seq<BucketView> {
    plan_of_candidates(candidates(sorted_tokens(sample), count))
}

/// Relies on `slice::sort_unstable`: it permutes the slice into ascending
/// order, and `str` orders itself by its UTF-8 bytes.
#[verifier::external_body]
fn sort_tokens(v: &mut Vec<String>)
    ensures
        views(final(v)@).to_multiset() == views(old(v)@).to_multiset(),
        forall|i: int, j: int|
            0 <= i < j < final(v)@.len() ==> token_le(#[trigger] final(v)@[i]@, #[trigger] final(v)@[j]@),
{
    v.sort_unstable();
}

pub proof fn lemma_bucket_order()
    ensures
        forall|a: BucketView| !bucket_lt(a, a),
        forall|a: BucketView, b: BucketView, c: BucketView|
            bucket_lt(a, b) && bucket_lt(b, c) ==> bucket_lt(a, c),
        forall|a: BucketView, b: BucketView| bucket_lt(a, b) || a == b || bucket_lt(b, a),
        forall|a: BucketView, b: BucketView| bucket_lt(a, b) ==> !bucket_lt(b, a),
{
    lemma_token_order();
    assert forall|a: BucketView, b: BucketView| bucket_lt(a, b) || a == b || bucket_lt(b, a) by {
        if a.0 == b.0 && a.1 == b.1 {
            assert(a == b);
        }
    }
}

proof fn lemma_token_le_total_ordering()
    ensures
        total_ordering(|a: Seq<char>, b: Seq<char>| token_le(a, b)),
{
    lemma_token_order();
}

/// Two ascending permutations of one multiset are the same sequence.
proof fn lemma_sorted_unique(a: Seq<Seq<char>>, b: Seq<Seq<char>>)
    requires
        a.to_multiset() == b.to_multiset(),
        forall|i: int, j: int| 0 <= i < j < a.len() ==> token_le(#[trigger] a[i], #[trigger] a[j]),
        forall|i: int, j: int| 0 <= i < j < b.len() ==> token_le(#[trigger] b[i], #[trigger] b[j]),
    ensures
        a == b,
    decreases a.len(),
{
    broadcast use vstd::seq_lib::group_to_multiset_ensures;
    lemma_token_order();
    a.to_multiset_ensures();
    b.to_multiset_ensures();
    assert(a.len() == b.len());
    if a.len() > 0 {
        assert(a.contains(a[0]));
        assert(b.contains(b[0]));
        assert(a.to_multiset().count(a[0]) > 0);
        assert(b.to_multiset().count(b[0]) > 0);
        assert(b.contains(a[0]));
        assert(a.contains(b[0]));
        let ja = choose|j: int| 0 <= j < b.len() && b[j] == a[0];
        let jb = choose|j: int| 0 <= j < a.len() && a[j] == b[0];
        if ja > 0 {
            assert(token_le(b[0], b[ja]));
        }
        if jb > 0 {
            assert(token_le(a[0], a[jb]));
        }
        assert(a[0] == b[0]);
        assert(a.remove(0).to_multiset() == a.to_multiset().remove(a[0]));
        assert(b.remove(0).to_multiset() == b.to_multiset().remove(b[0]));
        assert(a.remove(0) =~= a.drop_first());
        assert(b.remove(0) =~= b.drop_first());
        let a1 = a.drop_first();
        let b1 = b.drop_first();
        assert forall|i: int, j: int| 0 <= i < j < a1.len() implies token_le(#[trigger] a1[i], #[trigger] a1[j]) by {
            assert(token_le(a[i + 1], a[j + 1]));
        }
        assert forall|i: int, j: int| 0 <= i < j < b1.len() implies token_le(#[trigger] b1[i], #[trigger] b1[j]) by {
            assert(token_le(b[i + 1], b[j + 1]));
        }
        lemma_sorted_unique(a1, b1);
        assert forall|i: int| 0 <= i < a.len() implies a[i] == b[i] by {
            if i > 0 {
                assert(a[i] == a1[i - 1]);
                assert(b[i] == b1[i - 1]);
            }
        }
        assert(a =~= b);
    }
}

/// An ascending permutation of a sample is its sorted form.
proof fn lemma_is_sorted_sample(sample: Seq<Seq<char>>, s: Seq<Seq<char>>)
    requires
        s.to_multiset() == sample.to_multiset(),
        forall|i: int, j: int| 0 <= i < j < s.len() ==> token_le(#[trigger] s[i], #[trigger] s[j]),
    ensures
        s == sorted_tokens(sample),
        s.len() == sample.len(),
{
    let leq = |a: Seq<char>, b: Seq<char>| token_le(a, b);
    lemma_token_le_total_ordering();
    sample.lemma_sort_by_ensures(leq);
    let t = sorted_tokens(sample);
    assert forall|i: int, j: int| 0 <= i < j < t.len() implies token_le(#[trigger] t[i], #[trigger] t[j]) by {
        assert(leq(t[i], t[j]));
    }
    lemma_sorted_unique(s, t);
    s.to_multiset_ensures();
    sample.to_multiset_ensures();
}

/// The bucket of a token, given where the buckets at or below its probe end.
proof fn lemma_resolve_at(p: Seq<BucketView>, t: Seq<char>, q: int)
    requires
        0 <= q <= p.len(),
        forall|i: int| 0 <= i < q ==> bucket_le(#[trigger] p[i], probe(t)),
        forall|i: int| q <= i < p.len() ==> !bucket_le(#[trigger] p[i], probe(t)),
    ensures
        resolve(p, t) == if q == 0 { 0 } else { q - 1 },
    decreases p.len(),
{
    if p.len() > 1 {
        if q == p.len() {
            assert(bucket_le(p[p.len() - 1], probe(t)));
        } else {
            assert(!bucket_le(p[p.len() - 1], probe(t)));
            lemma_resolve_at(p.drop_last(), t, q);
        }
    }
}

/// Every token resolves to a bucket of the plan.
pub proof fn lemma_resolve_in_plan(p: Seq<BucketView>, t: Seq<char>)
    requires
        p.len() > 0,
    ensures
        0 <= resolve(p, t) < p.len(),
    decreases p.len(),
{
    if p.len() > 1 && !bucket_le(p.last(), probe(t)) {
        lemma_resolve_in_plan(p.drop_last(), t);
    }
}

/// Where a token resolves: no later bucket lies at or below its probe, and
/// the bucket itself does, unless none does and it is bucket 0.
pub proof fn lemma_resolve_is_last_at_or_below(p: Seq<BucketView>, t: Seq<char>)
    requires
        p.len() > 0,
    ensures
        forall|i: int| resolve(p, t) < i < p.len() ==> !bucket_le(#[trigger] p[i], probe(t)),
        bucket_le(p[resolve(p, t)], probe(t)) || (resolve(p, t) == 0 && forall|i: int|
            0 <= i < p.len() ==> !bucket_le(#[trigger] p[i], probe(t))),
    decreases p.len(),
{
    if p.len() > 1 && !bucket_le(p.last(), probe(t)) {
        let q = p.drop_last();
        lemma_resolve_is_last_at_or_below(q, t);
        lemma_resolve_in_plan(q, t);
        assert(resolve(p, t) == resolve(q, t));
        assert forall|i: int| resolve(p, t) < i < p.len() implies !bucket_le(#[trigger] p[i], probe(t)) by {
            if i < q.len() {
                assert(p[i] == q[i]);
            }
        }
        if !bucket_le(p[resolve(p, t)], probe(t)) {
            assert forall|i: int| 0 <= i < p.len() implies !bucket_le(#[trigger] p[i], probe(t)) by {
                if i < q.len() {
                    assert(p[i] == q[i]);
                } else {
                    assert(p[i] == p.last());
                }
            }
        }
    }
}

/// A token below every bucket key resolves to bucket 0.
pub proof fn lemma_resolve_below_every_key(p: Seq<BucketView>, t: Seq<char>)
    requires
        plan_wf(p),
        forall|i: int| 0 <= i < p.len() ==> token_lt(t, #[trigger] p[i].0),
    ensures
        resolve(p, t) == 0,
{
    lemma_token_order();
    assert forall|i: int| 0 <= i < p.len() implies !bucket_le(#[trigger] p[i], probe(t)) by {
        assert(token_lt(t, p[i].0));
    }
    lemma_resolve_at(p, t, 0);
}

/// Whether `(key, ty) <= (token, Single)`.
fn at_or_below(key: &String, ty: BucketType, token: &str) -> (r: bool)
    ensures
        r == bucket_le((key@, ty), probe(token@)),
{
    proof {
        lemma_token_order();
    }
    match compare_tokens(key.as_str(), token) {
        Ordering::Less => true,
        Ordering::Equal => ty == BucketType::Single,
        Ordering::Greater => false,
    }
}

/// Finds the bucket of `token` by binary search over a sorted plan.
pub fn find_bucket(plan: &Vec<Bucket>, token: &str) -> (r: usize)
    requires
        plan_wf(plan_view(plan@)),
    ensures
        r == resolve(plan_view(plan@), token@),
        r < plan@.len(),
{
    let ghost p = plan_view(plan@);
    proof {
        lemma_bucket_order();
    }
    let mut lo: usize = 0;
    let mut hi: usize = plan.len();
    while lo < hi
        invariant
            p == plan_view(plan@),
            plan_wf(p),
            0 <= lo <= hi <= plan@.len(),
            forall|i: int| 0 <= i < lo ==> bucket_le(#[trigger] p[i], probe(token@)),
            forall|i: int| hi <= i < p.len() ==> !bucket_le(#[trigger] p[i], probe(token@)),
        decreases hi - lo,
    {
        let mid = lo + (hi - lo) / 2;
        let below = at_or_below(&plan[mid].0, plan[mid].1, token);
        proof {
            lemma_bucket_order();
            assert(p[mid as int] == bucket_view(plan@[mid as int]));
        }
        if below {
            proof {
                assert forall|i: int| 0 <= i <= mid implies bucket_le(#[trigger] p[i], probe(token@)) by {
                    if i < mid {
                        assert(bucket_lt(p[i], p[mid as int]));
                    }
                }
            }
            lo = mid + 1;
        } else {
            proof {
                assert forall|i: int| mid <= i < p.len() implies !bucket_le(#[trigger] p[i], probe(token@)) by {
                    if i > mid {
                        assert(bucket_lt(p[mid as int], p[i]));
                    }
                }
            }
            hi = mid;
        }
    }
    proof {
        lemma_resolve_at(p, token@, lo as int);
    }
    if lo == 0 {
        0
    } else {
        lo - 1
    }
}

/// Candidates of an ascending sample are ascending.
proof fn lemma_candidates_sorted(s: Seq<Seq<char>>, k: nat)
    requires
        s.len() > 0,
        k > 0,
        forall|i: int, j: int| 0 <= i < j < s.len() ==> token_le(#[trigger] s[i], #[trigger] s[j]),
    ensures
        forall|i: int, j: int|
            0 <= i < j < k ==> token_le(#[trigger] candidates(s, k)[i], #[trigger] candidates(s, k)[j]),
{
    let n = s.len() as int;
    let kk = k as int;
    assert forall|i: int, j: int|
        0 <= i < j < k implies token_le(#[trigger] candidates(s, k)[i], #[trigger] candidates(s, k)[j]) by {
        lemma_candidate_position(i, n, kk);
        lemma_candidate_position(j, n, kk);
        assert(i * n / kk <= j * n / kk) by (nonlinear_arith)
            requires
                0 <= i < j,
                n > 0,
                kk > 0,
        {
            vstd::arithmetic::div_mod::lemma_div_is_ordered(i * n, j * n, kk);
        }
        if i * n / kk < j * n / kk {
            assert(token_le(s[i * n / kk], s[j * n / kk]));
        }
    }
}

proof fn lemma_candidate_position(i: int, n: int, k: int)
    requires
        0 <= i < k,
        n > 0,
    ensures
        0 <= i * n / k < n,
{
    assert(0 <= i * n / k < n) by (nonlinear_arith)
        requires
            0 <= i < k,
            n > 0,
    {
        vstd::arithmetic::div_mod::lemma_div_is_ordered(i * n, k * n - 1, k);
        vstd::arithmetic::div_mod::lemma_div_pos_is_pos(i * n, k);
        vstd::arithmetic::div_mod::lemma_div_by_multiple_is_strongly_ordered(i * n, k * n, n, k);
    }
}

/// The walk over ascending candidates emits strictly ascending buckets,
/// each below the current candidate's `Multi` bucket.
proof fn lemma_walk(c: Seq<Seq<char>>, n: int)
    requires
        1 <= n <= c.len(),
        forall|i: int, j: int| 0 <= i < j < c.len() ==> token_le(#[trigger] c[i], #[trigger] c[j]),
    ensures
        walk(c, n).0.len() <= n - 1,
        forall|i: int, j: int|
            0 <= i < j < walk(c, n).0.len() ==> bucket_lt(#[trigger] walk(c, n).0[i], #[trigger] walk(c, n).0[j]),
        forall|i: int|
            0 <= i < walk(c, n).0.len() ==> bucket_lt(#[trigger] walk(c, n).0[i], (c[n - 1], BucketType::Multi)),
        !walk(c, n).1 ==> forall|i: int|
            0 <= i < walk(c, n).0.len() ==> bucket_lt(#[trigger] walk(c, n).0[i], probe(c[n - 1])),
        walk(c, n).1 ==> walk(c, n).0.len() > 0 && walk(c, n).0.last() == probe(c[n - 1]),
        forall|j: int|
            0 <= j < walk(c, n).0.len() && (#[trigger] walk(c, n).0[j]).1 == BucketType::Single ==> (j + 1
                < walk(c, n).0.len() && walk(c, n).0[j + 1] == (walk(c, n).0[j].0, BucketType::Multi)) || (j
                + 1 == walk(c, n).0.len() && walk(c, n).1),
    decreases n,
{
    if n > 1 {
        lemma_walk(c, n - 1);
        lemma_bucket_order();
        let out = walk(c, n - 1).0;
        let single = walk(c, n - 1).1;
        let previous = c[n - 2];
        let candidate = c[n - 1];
        assert(token_le(previous, candidate));
        if candidate != previous {
            assert(bucket_lt((previous, BucketType::Multi), probe(candidate)));
        }
        let out2 = walk(c, n).0;
        assert forall|i: int| 0 <= i < out2.len() implies bucket_lt(#[trigger] out2[i], (c[n - 1], BucketType::Multi)) by {
            if i < out.len() {
                assert(out2[i] == out[i]);
            }
        }
        assert forall|j: int|
            0 <= j < out2.len() && (#[trigger] out2[j]).1 == BucketType::Single implies (j + 1 < out2.len()
                && out2[j + 1] == (out2[j].0, BucketType::Multi)) || (j + 1 == out2.len() && walk(c, n).1) by {
            if j < out.len() {
                assert(out2[j] == out[j]);
                if j + 1 < out.len() {
                    assert(out2[j + 1] == out[j + 1]);
                }
            }
        }
    }
}

/// Every plan made from a non-empty sample and at least one bucket is
/// strictly ascending by key and then type (`Single` first), holds at most
/// `bucket_count` buckets, ends with a `Multi` bucket, and follows each
/// `Single` bucket with the `Multi` bucket of the same key.
pub proof fn lemma_planned_buckets_shape(sample: Seq<Seq<char>>, bucket_count: nat)
    requires
        sample.len() > 0,
        bucket_count > 0,
    ensures
        plan_wf(planned_buckets(sample, bucket_count)),
        singles_paired(planned_buckets(sample, bucket_count)),
        planned_buckets(sample, bucket_count).len() <= bucket_count,
{
    let leq = |a: Seq<char>, b: Seq<char>| token_le(a, b);
    lemma_token_le_total_ordering();
    sample.lemma_sort_by_ensures(leq);
    let s = sorted_tokens(sample);
    broadcast use vstd::seq_lib::group_to_multiset_ensures;
    sample.to_multiset_ensures();
    s.to_multiset_ensures();
    assert(s.len() == sample.len());
    assert forall|i: int, j: int| 0 <= i < j < s.len() implies token_le(#[trigger] s[i], #[trigger] s[j]) by {
        assert(leq(s[i], s[j]));
    }
    lemma_candidates_sorted(s, bucket_count);
    let c = candidates(s, bucket_count);
    lemma_walk(c, c.len() as int);
    lemma_bucket_order();
    let w = walk(c, c.len() as int).0;
    let p = planned_buckets(sample, bucket_count);
    assert forall|i: int, j: int| 0 <= i < j < p.len() implies bucket_lt(#[trigger] p[i], #[trigger] p[j]) by {
        if j < w.len() {
            assert(p[i] == w[i] && p[j] == w[j]);
        } else {
            assert(p[i] == w[i]);
        }
    }
    assert forall|j: int|
        0 <= j < p.len() && (#[trigger] p[j]).1 == BucketType::Single implies j + 1 < p.len() && p[j + 1] == (
            p[j].0,
            BucketType::Multi,
        ) by {
        assert(p[j] == w[j]);
        if j + 1 < w.len() {
            assert(p[j + 1] == w[j + 1]);
        }
    }
}

fn candidate_index(i: usize, len: usize, count: usize) -> (r: usize)
    requires
        i < count,
        0 < len,
    ensures
        r == (i as int) * (len as int) / (count as int),
        r < len,
{
    proof {
        lemma_candidate_position(i as int, len as int, count as int);
        assert((i as int) * (len as int) < 0x1_0000_0000_0000_0000_0000_0000_0000_0000) by (nonlinear_arith)
            requires
                i < count,
                count <= usize::MAX,
                len <= usize::MAX,
        {
        }
    }
    let wide = (i as u128) * (len as u128) / (count as u128);
    wide as usize
}

/// Chooses bucket boundaries from a sample of tokens: the sample is sorted,
/// cut into `pivot_count` equal ranges, and the first token of each range
/// becomes a boundary. A boundary that recurs becomes a `Single` bucket
/// once; every other boundary, and the last, becomes a `Multi` bucket.
pub fn select_buckets_from(sample_tokens: Vec<String>, pivot_count: u16) -> (r: Result<
    Vec<Bucket>,
    PlanningError,
>)
    ensures
        sample_tokens@.len() == 0 <==> r == Err::<Vec<Bucket>, PlanningError>(
            PlanningError::EmptySample,
        ),
        sample_tokens@.len() > 0 && pivot_count == 0 <==> r == Err::<Vec<Bucket>, PlanningError>(
            PlanningError::NoBuckets,
        ),
        r is Ok ==> plan_view(r->Ok_0@) == planned_buckets(views(sample_tokens@), pivot_count as nat),
        r is Ok ==> plan_wf(plan_view(r->Ok_0@)),
        r is Ok ==> singles_paired(plan_view(r->Ok_0@)),
        r is Ok ==> r->Ok_0@.len() <= pivot_count,
{
    if sample_tokens.len() == 0 {
        return Err(PlanningError::EmptySample);
    }
    if pivot_count == 0 {
        return Err(PlanningError::NoBuckets);
    }
    let ghost sample = views(sample_tokens@);
    let mut sorted = sample_tokens;
    sort_tokens(&mut sorted);
    let ghost sv = views(sorted@);
    proof {
        lemma_is_sorted_sample(sample, sv);
        lemma_planned_buckets_shape(sample, pivot_count as nat);
    }
    let ghost c = candidates(sv, pivot_count as nat);
    let len = sorted.len();
    let count = pivot_count as usize;
    let mut previous = sorted[0].clone();
    let mut single_emitted = false;
    let mut buckets: Vec<Bucket> = Vec::with_capacity(count);
    proof {
        assert(0 * (len as int) / (count as int) == 0);
        assert(c[0] == sv[0]);
    }
    let mut i: usize = 1;
    while i < count
        invariant
            sv == views(sorted@),
            len == sorted@.len(),
            len > 0,
            count == pivot_count,
            c == candidates(sv, pivot_count as nat),
            1 <= i <= count,
            plan_view(buckets@) == walk(c, i as int).0,
            single_emitted == walk(c, i as int).1,
            previous@ == c[i - 1],
        decreases count - i,
    {
        let idx = candidate_index(i, len, count);
        let candidate = sorted[idx].clone();
        assert(candidate@ == c[i as int]);
        let ghost before = buckets@;
        if !(candidate == previous) {
            buckets.push((previous, BucketType::Multi));
            single_emitted = false;
        } else if !single_emitted {
            buckets.push((previous, BucketType::Single));
            single_emitted = true;
        }
        proof {
            assert(plan_view(buckets@) =~= walk(c, i + 1).0);
        }
        previous = candidate;
        i = i + 1;
    }
    buckets.push((previous, BucketType::Multi));
    proof {
        assert(plan_view(buckets@) =~= planned_buckets(sample, pivot_count as nat));
    }
    Ok(buckets)
}

/// Whether `v` is among the first `n` candidates.
pub open spec fn seen_before(c: Seq<Seq<char>>, n: int, v: Seq<char>) -> bool {
    exists|i: int| 0 <= i < n && #[trigger] c[i] == v
}

/// Whether two neighbours among the first `n` candidates are both `v`.
pub open spec fn pair_before(c: Seq<Seq<char>>, n: int, v: Seq<char>) -> bool {
    exists|i: int| 0 <= i && i + 1 < n && #[trigger] c[i] == v && c[i + 1] == v
}

/// Whether `v` occurs at least twice among the candidates.
pub open spec fn repeated(c: Seq<Seq<char>>, v: Seq<char>) -> bool {
    exists|i: int, j: int| 0 <= i < j < c.len() && #[trigger] c[i] == v && #[trigger] c[j] == v
}

proof fn lemma_push_contains(s: Seq<BucketView>, x: BucketView, y: BucketView)
    ensures
        s.push(x).contains(y) <==> (s.contains(y) || x == y),
{
    if s.contains(y) {
        let i = choose|i: int| 0 <= i < s.len() && s[i] == y;
        assert(s.push(x)[i] == y);
    }
    if x == y {
        assert(s.push(x)[s.len() as int] == y);
    }
    if s.push(x).contains(y) {
        let i = choose|i: int| 0 <= i < s.push(x).len() && s.push(x)[i] == y;
        if i < s.len() {
            assert(s[i] == y);
        }
    }
}

/// What the walk over ascending candidates has emitted after `n` of them:
/// a `Multi` bucket for each earlier value that differs from the current
/// candidate, and a `Single` bucket for each value seen twice in a row.
proof fn lemma_walk_contents(c: Seq<Seq<char>>, n: int)
    requires
        1 <= n <= c.len(),
        forall|i: int, j: int| 0 <= i < j < c.len() ==> token_le(#[trigger] c[i], #[trigger] c[j]),
    ensures
        forall|v: Seq<char>|
            #[trigger] walk(c, n).0.contains((v, BucketType::Multi)) <==> (seen_before(c, n - 1, v) && v != c[n - 1]),
        forall|v: Seq<char>| #[trigger] walk(c, n).0.contains((v, BucketType::Single)) <==> pair_before(c, n, v),
        walk(c, n).1 <==> (n >= 2 && c[n - 2] == c[n - 1]),
    decreases n,
{
    lemma_token_order();
    if n == 1 {
        assert forall|v: Seq<char>| !(#[trigger] walk(c, n).0.contains((v, BucketType::Single))) && !pair_before(c, n, v) by {
        }
    } else {
        lemma_walk_contents(c, n - 1);
        let out = walk(c, n - 1).0;
        let single = walk(c, n - 1).1;
        let previous = c[n - 2];
        let candidate = c[n - 1];
        let out2 = walk(c, n).0;
        assert(token_le(previous, candidate));
        assert forall|v: Seq<char>|
            #[trigger] out2.contains((v, BucketType::Multi)) <==> (seen_before(c, n - 1, v) && v != c[n - 1]) by {
            if candidate != previous {
                lemma_push_contains(out, (previous, BucketType::Multi), (v, BucketType::Multi));
                if seen_before(c, n - 2, v) {
                    let i = choose|i: int| 0 <= i < n - 2 && #[trigger] c[i] == v;
                    assert(c[i] == v);
                    assert(token_le(v, previous));
                }
                if seen_before(c, n - 1, v) && v != previous {
                    let i = choose|i: int| 0 <= i < n - 1 && #[trigger] c[i] == v;
                    assert(c[i] == v);
                    assert(seen_before(c, n - 2, v));
                }
                if v == previous {
                    assert(c[n - 2] == v);
                }
            } else {
                if !single {
                    lemma_push_contains(out, (previous, BucketType::Single), (v, BucketType::Multi));
                }
                if seen_before(c, n - 1, v) && v != previous {
                    let i = choose|i: int| 0 <= i < n - 1 && #[trigger] c[i] == v;
                    assert(c[i] == v);
                    assert(seen_before(c, n - 2, v));
                }
                if seen_before(c, n - 2, v) {
                    let i = choose|i: int| 0 <= i < n - 2 && #[trigger] c[i] == v;
                    assert(c[i] == v);
                    assert(seen_before(c, n - 1, v));
                }
            }
        }
        assert forall|v: Seq<char>| #[trigger] out2.contains((v, BucketType::Single)) <==> pair_before(c, n, v) by {
            if pair_before(c, n, v) && !pair_before(c, n - 1, v) {
                let i = choose|i: int| 0 <= i && i + 1 < n && #[trigger] c[i] == v && c[i + 1] == v;
                assert(c[i] == v);
                assert(i == n - 2);
            }
            if pair_before(c, n - 1, v) {
                let i = choose|i: int| 0 <= i && i + 1 < n - 1 && #[trigger] c[i] == v && c[i + 1] == v;
                assert(c[i] == v);
                assert(pair_before(c, n, v));
            }
            if candidate != previous {
                lemma_push_contains(out, (previous, BucketType::Multi), (v, BucketType::Single));
            } else if !single {
                lemma_push_contains(out, (previous, BucketType::Single), (v, BucketType::Single));
                if v == previous {
                    assert(c[n - 2] == v && c[n - 1] == v);
                }
            } else {
                if v == previous {
                    assert(c[n - 3] == v && c[n - 2] == v);
                    assert(pair_before(c, n - 1, v));
                }
            }
        }
    }
}

/// The plan made from a sample holds exactly a `Multi` bucket for each
/// boundary candidate and a `Single` bucket for each candidate that occurs
/// at least twice, in strictly ascending bucket order.
pub proof fn lemma_planned_buckets_contents(sample: Seq<Seq<char>>, bucket_count: nat)
    requires
        sample.len() > 0,
        bucket_count > 0,
    ensures
        plan_wf(planned_buckets(sample, bucket_count)),
        forall|b: BucketView|
            #[trigger] planned_buckets(sample, bucket_count).contains(b) <==> ((b.1 == BucketType::Multi
                && candidates(sorted_tokens(sample), bucket_count).contains(b.0)) || (b.1 == BucketType::Single
                && repeated(candidates(sorted_tokens(sample), bucket_count), b.0))),
{
    lemma_planned_buckets_shape(sample, bucket_count);
    lemma_token_order();
    let leq = |a: Seq<char>, b: Seq<char>| token_le(a, b);
    lemma_token_le_total_ordering();
    sample.lemma_sort_by_ensures(leq);
    let s = sorted_tokens(sample);
    sample.to_multiset_ensures();
    s.to_multiset_ensures();
    assert forall|i: int, j: int| 0 <= i < j < s.len() implies token_le(#[trigger] s[i], #[trigger] s[j]) by {
        assert(leq(s[i], s[j]));
    }
    lemma_candidates_sorted(s, bucket_count);
    let c = candidates(s, bucket_count);
    let k = c.len() as int;
    lemma_walk_contents(c, k);
    let w = walk(c, k).0;
    let last = (c[k - 1], BucketType::Multi);
    let p = planned_buckets(sample, bucket_count);
    assert(p == w.push(last));
    assert forall|b: BucketView| #[trigger] p.contains(b) <==> ((b.1 == BucketType::Multi && c.contains(b.0)) || (
        b.1 == BucketType::Single && repeated(c, b.0))) by {
        lemma_push_contains(w, last, b);
        let v = b.0;
        if b.1 == BucketType::Multi {
            assert(b == (v, BucketType::Multi));
            if c.contains(v) {
                let i = choose|i: int| 0 <= i < c.len() && c[i] == v;
                if i < k - 1 {
                    assert(seen_before(c, k - 1, v));
                }
            }
            if seen_before(c, k - 1, v) {
                let i = choose|i: int| 0 <= i < k - 1 && #[trigger] c[i] == v;
                assert(c.contains(v));
            }
            if v == c[k - 1] {
                assert(c.contains(v));
            }
        } else {
            assert(b == (v, BucketType::Single));
            if pair_before(c, k, v) {
                let i = choose|i: int| 0 <= i && i + 1 < k && #[trigger] c[i] == v && c[i + 1] == v;
                assert(c[i] == v && c[i + 1] == v);
                assert(repeated(c, v));
            }
            if repeated(c, v) {
                let (i, j) = choose|i: int, j: int| 0 <= i < j < c.len() && #[trigger] c[i] == v && #[trigger] c[j] == v;
                assert(token_le(c[i], c[i + 1]));
                if i + 1 < j {
                    assert(token_le(c[i + 1], c[j]));
                }
                assert(c[i + 1] == v);
                assert(pair_before(c, k, v));
            }
        }
    }
}

} // verus!
