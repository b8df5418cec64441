//! The document encoder: each document becomes one row, with one cell per
//! bucket, a presence flag for a `Single` bucket and the list of the
//! document's tokens in that bucket for a `Multi` bucket.

use crate::corpus::Document;
use crate::plan::{find_bucket, plan_view, plan_wf, resolve, views, Bucket, BucketType, BucketView};
use vstd::prelude::*;

verus! {

/// One encoded bucket column of a batch.
#[derive(Clone, Debug, PartialEq, Eq)]
pub enum Column {
    Flags(Vec<bool>),
    Lists(Vec<Vec<String>>),
}

/// A chunk of encoded documents: the id column and one column per bucket.
#[derive(Clone, Debug, PartialEq, Eq)]
pub struct Batch {
    pub ids: Vec<u64>,
    pub columns: Vec<Column>,
}

/// The value of one cell.
pub enum CellView {
    Flag(bool),
    List(Seq<Seq<char>>),
}

/// The tokens, in document order, that resolve to bucket `j`.
pub open spec fn bucket_tokens(p: Seq<BucketView>, toks: Seq<Seq<char>>, j: int) -> Seq<Seq<char>>
    decreases toks.len(),
{
    if toks.len() == 0 {
        Seq::empty()
    } else {
        let rest = bucket_tokens(p, toks.drop_last(), j);
        if resolve(p, toks.last()) == j {
            rest.push(toks.last())
        } else {
            rest
        }
    }
}

/// The cell of bucket `j` for a document with tokens `toks`.
pub open spec fn cell_of(p: Seq<BucketView>, toks: Seq<Seq<char>>, j: int) -> CellView {
    if p[j].1 == BucketType::Single {
        CellView::Flag(bucket_tokens(p, toks, j).len() > 0)
    } else {
        CellView::List(bucket_tokens(p, toks, j))
    }
}

/// The encoded row of a document with tokens `toks`.
pub open spec fn row_of(p: Seq<BucketView>, toks: Seq<Seq<char>>) -> Seq<CellView> {
    Seq::new(p.len(), |j: int| cell_of(p, toks, j))
}

pub open spec fn column_type(c: Column) -> BucketType {
    match c {
        Column::Flags(_) => BucketType::Single,
        Column::Lists(_) => BucketType::Multi,
    }
}

pub open spec fn column_len(c: Column) -> nat {
    match c {
        Column::Flags(v) => v@.len(),
        Column::Lists(v) => v@.len(),
    }
}

pub open spec fn column_cell(c: Column, r: int) -> CellView {
    match c {
        Column::Flags(v) => CellView::Flag(v@[r]),
        Column::Lists(v) => CellView::List(views(v@[r]@)),
    }
}

impl Batch {
    pub open spec fn len(&self) -> nat {
        self.ids@.len()
    }

    /// Every column holds one cell per document.
    pub open spec fn wf(&self) -> bool {
        forall|j: int| 0 <= j < self.columns@.len() ==> column_len(#[trigger] self.columns@[j]) == self.len()
    }

    /// The cells of row `r`.
    pub open spec fn row(&self, r: int) -> Seq<CellView> {
        Seq::new(self.columns@.len(), |j: int| column_cell(self.columns@[j], r))
    }

    /// This batch encodes `docs` under plan `p`.
    pub open spec fn encodes(&self, p: Seq<BucketView>, docs: Seq<Document>) -> bool {
        &&& self.wf()
        &&& self.ids@ == docs.map_values(|d: Document| d.0)
        &&& self.columns@.len() == p.len()
        &&& forall|j: int| 0 <= j < p.len() ==> column_type(#[trigger] self.columns@[j]) == p[j].1
        &&& forall|r: int| 0 <= r < docs.len() ==> #[trigger] self.row(r) == row_of(p, views(docs[r].1@))
    }
}

/// Groups the tokens of one document by bucket.
fn group_tokens(plan: &Vec<Bucket>, tokens: &Vec<String>) -> (r: Vec<Vec<String>>)
    requires
        plan_wf(plan_view(plan@)),
    ensures
        r@.len() == plan@.len(),
        forall|j: int| 0 <= j < plan@.len() ==> views(#[trigger] r@[j]@) == bucket_tokens(plan_view(plan@), views(tokens@), j),
{
    let ghost p = plan_view(plan@);
    let mut groups: Vec<Vec<String>> = Vec::new();
    let mut j: usize = 0;
    while j < plan.len()
        invariant
            j <= plan@.len(),
            groups@.len() == j,
            forall|i: int| 0 <= i < j ==> (#[trigger] groups@[i])@.len() == 0,
        decreases plan@.len() - j,
    {
        groups.push(Vec::new());
        j = j + 1;
    }
    let ghost toks = views(tokens@);
    let mut k: usize = 0;
    while k < tokens.len()
        invariant
            p == plan_view(plan@),
            plan_wf(p),
            toks == views(tokens@),
            k <= tokens@.len(),
            groups@.len() == plan@.len(),
            forall|i: int| 0 <= i < plan@.len() ==> views(#[trigger] groups@[i]@) == bucket_tokens(p, toks.take(k as int), i),
        decreases tokens@.len() - k,
    {
        let idx = find_bucket(plan, tokens[k].as_str());
        let ghost before = groups@;
        groups[idx].push(tokens[k].clone());
        proof {
            let t = toks.take(k + 1);
            assert(t.drop_last() =~= toks.take(k as int));
            assert(t.last() == tokens@[k as int]@);
            assert forall|i: int| 0 <= i < plan@.len() implies views(#[trigger] groups@[i]@) == bucket_tokens(p, t, i) by {
                if i == idx {
                    assert(views(groups@[i]@) =~= views(before[i]@).push(tokens@[k as int]@));
                } else {
                    assert(groups@[i] == before[i]);
                }
            }
        }
        k = k + 1;
    }
    assert(toks.take(tokens@.len() as int) =~= toks);
    groups
}

pub open spec fn doc_tokens(docs: Seq<Document>, r: int) -> Seq<Seq<char>> {
    views(docs[r].1@)
}

spec fn flags_match(col: Seq<bool>, p: Seq<BucketView>, docs: Seq<Document>, j: int, n: int) -> bool {
    &&& col.len() == n
    &&& forall|r: int| 0 <= r < n ==> #[trigger] col[r] == (bucket_tokens(p, doc_tokens(docs, r), j).len() > 0)
}

spec fn lists_match(col: Seq<Vec<String>>, p: Seq<BucketView>, docs: Seq<Document>, j: int, n: int) -> bool {
    &&& col.len() == n
    &&& forall|r: int| 0 <= r < n ==> views(#[trigger] col[r]@) == bucket_tokens(p, doc_tokens(docs, r), j)
}

spec fn builder_match(
    flags: Seq<Vec<bool>>,
    lists: Seq<Vec<Vec<String>>>,
    p: Seq<BucketView>,
    docs: Seq<Document>,
    j: int,
    n: int,
) -> bool {
    &&& p[j].1 == BucketType::Single ==> flags_match(flags[j]@, p, docs, j, n)
    &&& p[j].1 == BucketType::Multi ==> lists_match(lists[j]@, p, docs, j, n)
}

/// Encodes the documents `start..end` into one batch.
fn encode_range(plan: &Vec<Bucket>, docs: &Vec<Document>, start: usize, end: usize) -> (r: Batch)
    requires
        plan_wf(plan_view(plan@)),
        start <= end <= docs@.len(),
    ensures
        r.encodes(plan_view(plan@), docs@.subrange(start as int, end as int)),
        r.len() == end - start,
{
    let ghost p = plan_view(plan@);
    let ghost sub = docs@.subrange(start as int, end as int);
    let n = end - start;
    let nb = plan.len();
    let mut flags: Vec<Vec<bool>> = Vec::new();
    let mut lists: Vec<Vec<Vec<String>>> = Vec::new();
    let mut j: usize = 0;
    while j < nb
        invariant
            nb == plan@.len(),
            j <= nb,
            flags@.len() == j,
            lists@.len() == j,
            forall|i: int| 0 <= i < j ==> (#[trigger] flags@[i])@.len() == 0,
            forall|i: int| 0 <= i < j ==> (#[trigger] lists@[i])@.len() == 0,
        decreases nb - j,
    {
        flags.push(Vec::new());
        lists.push(Vec::new());
        j = j + 1;
    }
    let mut ids: Vec<u64> = Vec::new();
    let mut r: usize = 0;
    while r < n
        invariant
            p == plan_view(plan@),
            plan_wf(p),
            nb == plan@.len(),
            r <= n,
            n == end - start,
            end <= docs@.len(),
            sub == docs@.subrange(start as int, end as int),
            flags@.len() == nb,
            lists@.len() == nb,
            ids@ == sub.take(r as int).map_values(|d: Document| d.0),
            forall|i: int| 0 <= i < nb ==> builder_match(flags@, lists@, p, sub, i, r as int),
        decreases sub.len() - r,
    {
        ids.push(docs[start + r].0);
        let mut groups = group_tokens(plan, &docs[start + r].1);
        let ghost next = r + 1;
        let mut j: usize = 0;
        while j < nb
            invariant
                p == plan_view(plan@),
                nb == plan@.len(),
                r < n,
                n == end - start,
                end <= docs@.len(),
                sub == docs@.subrange(start as int, end as int),
                j <= nb,
                flags@.len() == nb,
                lists@.len() == nb,
                groups@.len() == nb,
                next == r + 1,
                forall|i: int| 0 <= i < j ==> #[trigger] builder_match(flags@, lists@, p, sub, i, next),
                forall|i: int| j <= i < nb ==> #[trigger] builder_match(flags@, lists@, p, sub, i, r as int),
                forall|i: int| j <= i < nb ==> views(#[trigger] groups@[i]@) == bucket_tokens(p, doc_tokens(sub, r as int), i),
            decreases nb - j,
        {
            let ghost f0 = flags@;
            let ghost l0 = lists@;
            let ghost g0 = groups@;
            if plan[j].1 == BucketType::Single {
                let set = groups[j].len() > 0;
                flags[j].push(set);
                proof {
                    assert(p[j as int].1 == plan@[j as int].1);
                    assert(builder_match(f0, l0, p, sub, j as int, r as int));
                    assert(views(g0[j as int]@).len() == g0[j as int]@.len());
                    assert(lists@ == l0);
                    let col = flags@[j as int]@;
                    assert forall|q: int| 0 <= q < r + 1 implies #[trigger] col[q] == (bucket_tokens(p, doc_tokens(sub, q), j as int).len() > 0) by {
                        if q < r {
                            assert(col[q] == f0[j as int]@[q]);
                        }
                    }
                    assert(builder_match(flags@, lists@, p, sub, j as int, r + 1));
                    assert forall|i: int| 0 <= i < nb && i != j implies flags@[i] == f0[i] by {}
                    assert forall|i: int| 0 <= i < nb && i != j implies #[trigger] builder_match(flags@, lists@, p, sub, i, next)
                        == builder_match(f0, l0, p, sub, i, next) && builder_match(flags@, lists@, p, sub, i, r as int)
                        == builder_match(f0, l0, p, sub, i, r as int) by {
                        assert(flags@[i] == f0[i]);
                    }
                    assert forall|i: int| j < i < nb implies #[trigger] builder_match(flags@, lists@, p, sub, i, r as int) by {
                        assert(builder_match(f0, l0, p, sub, i, r as int));
                        assert(flags@[i] == f0[i]);
                    }
                }
            } else {
                let mut group: Vec<String> = Vec::new();
                std::mem::swap(&mut group, &mut groups[j]);
                lists[j].push(group);
                proof {
                    assert(p[j as int].1 == plan@[j as int].1);
                    assert(builder_match(f0, l0, p, sub, j as int, r as int));
                    assert(flags@ == f0);
                    let col = lists@[j as int]@;
                    assert forall|q: int| 0 <= q < r + 1 implies views(#[trigger] col[q]@) == bucket_tokens(p, doc_tokens(sub, q), j as int) by {
                        if q < r {
                            assert(col[q] == l0[j as int]@[q]);
                        }
                    }
                    assert(builder_match(flags@, lists@, p, sub, j as int, r + 1));
                    assert forall|i: int| 0 <= i < nb && i != j implies lists@[i] == l0[i] && groups@[i] == g0[i] by {}
                    assert forall|i: int| 0 <= i < nb && i != j implies #[trigger] builder_match(flags@, lists@, p, sub, i, next)
                        == builder_match(f0, l0, p, sub, i, next) && builder_match(flags@, lists@, p, sub, i, r as int)
                        == builder_match(f0, l0, p, sub, i, r as int) by {
                        assert(lists@[i] == l0[i]);
                    }
                    assert forall|i: int| j < i < nb implies #[trigger] builder_match(flags@, lists@, p, sub, i, r as int) by {
                        assert(builder_match(f0, l0, p, sub, i, r as int));
                        assert(lists@[i] == l0[i]);
                    }
                }
            }
            j = j + 1;
        }
        proof {
            assert(sub.take(r + 1) =~= sub.take(r as int).push(sub[r as int]));
            assert(sub.take(r + 1).map_values(|d: Document| d.0) =~= sub.take(r as int).map_values(|d: Document| d.0).push(sub[r as int].0));
        }
        r = r + 1;
    }
    let mut columns: Vec<Column> = Vec::new();
    let mut j: usize = 0;
    while j < nb
        invariant
            p == plan_view(plan@),
            nb == plan@.len(),
            r == n,
            n == sub.len(),
            j <= nb,
            flags@.len() == nb,
            lists@.len() == nb,
            columns@.len() == j,
            forall|i: int| j <= i < nb ==> #[trigger] builder_match(flags@, lists@, p, sub, i, r as int),
            forall|i: int| 0 <= i < j ==> column_type(#[trigger] columns@[i]) == p[i].1,
            forall|i: int| 0 <= i < j ==> column_len(#[trigger] columns@[i]) == r,
            forall|i: int, q: int| 0 <= i < j && 0 <= q < r ==> #[trigger] column_cell(columns@[i], q) == cell_of(p, doc_tokens(sub, q), i),
        decreases nb - j,
    {
        let ghost f0 = flags@;
        let ghost l0 = lists@;
        assert(p[j as int].1 == plan@[j as int].1);
        assert(builder_match(f0, l0, p, sub, j as int, r as int));
        if plan[j].1 == BucketType::Single {
            let mut col: Vec<bool> = Vec::new();
            std::mem::swap(&mut col, &mut flags[j]);
            columns.push(Column::Flags(col));
            assert(lists@ == l0);
            assert forall|i: int| j < i < nb implies flags@[i] == f0[i] by {}
            assert forall|i: int| j < i < nb implies #[trigger] builder_match(flags@, lists@, p, sub, i, r as int) by {
                assert(builder_match(f0, l0, p, sub, i, r as int));
            }
        } else {
            let mut col: Vec<Vec<String>> = Vec::new();
            std::mem::swap(&mut col, &mut lists[j]);
            columns.push(Column::Lists(col));
            assert(flags@ == f0);
            assert forall|i: int| j < i < nb implies lists@[i] == l0[i] by {}
            assert forall|i: int| j < i < nb implies #[trigger] builder_match(flags@, lists@, p, sub, i, r as int) by {
                assert(builder_match(f0, l0, p, sub, i, r as int));
            }
        }
        j = j + 1;
    }
    let batch = Batch { ids, columns };
    proof {
        assert(sub.take(r as int) =~= sub);
        assert forall|q: int| 0 <= q < sub.len() implies #[trigger] batch.row(q) == row_of(p, views(sub[q].1@)) by {
            assert(batch.row(q) =~= row_of(p, views(sub[q].1@)));
        }
    }
    batch
}

/// Encodes a chunk of documents into one batch.
pub fn encode_chunk(plan: &Vec<Bucket>, docs: &Vec<Document>) -> (r: Batch)
    requires
        plan_wf(plan_view(plan@)),
    ensures
        r.encodes(plan_view(plan@), docs@),
        r.len() == docs@.len(),
{
    let b = encode_range(plan, docs, 0, docs.len());
    assert(docs@.subrange(0, docs@.len() as int) =~= docs@);
    b
}

/// The id and cells of each row of a batch.
pub open spec fn entries(b: Batch) -> Seq<(u64, Seq<CellView>)> {
    Seq::new(b.len(), |r: int| (b.ids@[r], b.row(r)))
}

/// The rows of a sequence of batches, in order.
pub open spec fn all_entries(bs: Seq<Batch>) -> Seq<(u64, Seq<CellView>)>
    decreases bs.len(),
{
    if bs.len() == 0 {
        Seq::empty()
    } else {
        all_entries(bs.drop_last()) + entries(bs.last())
    }
}

/// The id and encoded row of each document.
pub open spec fn encoded_entries(p: Seq<BucketView>, docs: Seq<Document>) -> Seq<(u64, Seq<CellView>)> {
    docs.map_values(|d: Document| (d.0, row_of(p, views(d.1@))))
}

/// Batches that encode `docs` under `p` in chunks of at most `chunk_size`.
pub open spec fn encodes_in_chunks(bs: Seq<Batch>, p: Seq<BucketView>, docs: Seq<Document>, chunk_size: nat) -> bool {
    &&& all_entries(bs) == encoded_entries(p, docs)
    &&& forall|k: int| 0 <= k < bs.len() ==> (#[trigger] bs[k]).wf() && bs[k].len() <= chunk_size
    &&& forall|k: int| 0 <= k < bs.len() ==> (#[trigger] bs[k]).columns@.len() == p.len()
    &&& forall|k: int, j: int| 0 <= k < bs.len() && 0 <= j < p.len() ==> column_type(
        #[trigger] bs[k].columns@[j],
    ) == p[j].1
}

proof fn lemma_entries_of_encoding(b: Batch, p: Seq<BucketView>, docs: Seq<Document>)
    requires
        b.encodes(p, docs),
    ensures
        entries(b) == encoded_entries(p, docs),
{
    assert forall|r: int| 0 <= r < docs.len() implies #[trigger] entries(b)[r] == encoded_entries(p, docs)[r] by {
        assert(b.row(r) == row_of(p, views(docs[r].1@)));
    }
    assert(entries(b) =~= encoded_entries(p, docs));
}

/// The end of chunk `k` when `n` documents are cut into chunks of `c`.
pub open spec fn chunk_end(k: int, c: int, n: int) -> int {
    if (k + 1) * c <= n {
        (k + 1) * c
    } else {
        n
    }
}

/// The document ranges of the chunks that `n` documents are cut into: every
/// chunk holds `chunk_size` documents but the last, which holds the rest,
/// possibly none.
pub fn chunk_bounds(n: usize, chunk_size: usize) -> (r: Vec<(usize, usize)>)
    requires
        chunk_size > 0,
    ensures
        r@.len() == n / chunk_size + 1,
        forall|k: int|
            0 <= k < r@.len() ==> (#[trigger] r@[k]).0 == k * chunk_size && r@[k].1 == chunk_end(
                k,
                chunk_size as int,
                n as int,
            ),
{
    let mut bounds: Vec<(usize, usize)> = Vec::new();
    let mut start: usize = 0;
    let ghost c = chunk_size as int;
    let ghost mut k: int = 0;
    loop
        invariant_except_break
            bounds@.len() == k,
            forall|i: int|
                0 <= i < k ==> (#[trigger] bounds@[i]).0 == i * chunk_size && bounds@[i].1 == chunk_end(
                    i,
                    chunk_size as int,
                    n as int,
                ),
        invariant
            c == chunk_size,
            c > 0,
            start == k * c,
            start <= n,
        ensures
            bounds@.len() == n / chunk_size + 1,
            forall|i: int|
                0 <= i < bounds@.len() ==> (#[trigger] bounds@[i]).0 == i * chunk_size && bounds@[i].1
                    == chunk_end(i, chunk_size as int, n as int),
        decreases n - start,
    {
        let end = if n - start >= chunk_size {
            start + chunk_size
        } else {
            n
        };
        proof {
            assert((k + 1) * c == k * c + c) by (nonlinear_arith);
        }
        let ghost before = bounds@;
        bounds.push((start, end));
        proof {
            assert(end == chunk_end(k, c, n as int));
            assert forall|i: int|
                0 <= i < k + 1 implies (#[trigger] bounds@[i]).0 == i * chunk_size && bounds@[i].1
                    == chunk_end(i, chunk_size as int, n as int) by {
                if i < k {
                    assert(bounds@[i] == before[i]);
                }
            }
        }
        if n - start < chunk_size {
            proof {
                let ni = n as int;
                vstd::arithmetic::div_mod::lemma_fundamental_div_mod(ni, c);
                vstd::arithmetic::div_mod::lemma_mod_bound(ni, c);
                vstd::arithmetic::div_mod::lemma_div_pos_is_pos(ni, c);
                if ni / c > k {
                    vstd::arithmetic::mul::lemma_mul_inequality(k + 1, ni / c, c);
                } else if ni / c < k {
                    vstd::arithmetic::mul::lemma_mul_inequality(ni / c + 1, k, c);
                    assert((ni / c + 1) * c == (ni / c) * c + c) by (nonlinear_arith);
                }
                assert(ni / c == k);
            }
            break;
        }
        start = end;
        proof {
            k = k + 1;
        }
    }
    bounds
}

/// Encodes documents into batches of `chunk_size` documents each, in
/// arrival order: every batch holds `chunk_size` documents but the last,
/// which holds the rest, and is empty when nothing is left.
pub fn encode_documents(plan: &Vec<Bucket>, docs: &Vec<Document>, chunk_size: usize) -> (r: Vec<Batch>)
    requires
        plan_wf(plan_view(plan@)),
        chunk_size > 0,
    ensures
        encodes_in_chunks(r@, plan_view(plan@), docs@, chunk_size as nat),
        r@.len() == (docs@.len() as int) / (chunk_size as int) + 1,
        forall|k: int| 0 <= k < r@.len() - 1 ==> (#[trigger] r@[k]).len() == chunk_size,
        r@.last().len() == (docs@.len() as int) % (chunk_size as int),
{
    let ghost p = plan_view(plan@);
    let n = docs.len();
    let bounds = chunk_bounds(n, chunk_size);
    let ghost c = chunk_size as int;
    let mut batches: Vec<Batch> = Vec::new();
    let mut k: usize = 0;
    proof {
        assert(encoded_entries(p, docs@.take(0)) =~= Seq::<(u64, Seq<CellView>)>::empty());
        assert(all_entries(batches@) =~= Seq::<(u64, Seq<CellView>)>::empty());
    }
    while k < bounds.len()
        invariant
            p == plan_view(plan@),
            plan_wf(p),
            n == docs@.len(),
            c == chunk_size,
            c > 0,
            bounds@.len() == (n as int) / c + 1,
            forall|i: int|
                0 <= i < bounds@.len() ==> (#[trigger] bounds@[i]).0 == i * c && bounds@[i].1 == chunk_end(i, c, n as int),
            k <= bounds@.len(),
            batches@.len() == k,
            k * c <= n || k == bounds@.len(),
            encodes_in_chunks(batches@, p, docs@.take(if k == bounds@.len() { n as int } else { k * c }), chunk_size as nat),
            forall|i: int| 0 <= i < k && i < bounds@.len() - 1 ==> (#[trigger] batches@[i]).len() == chunk_size,
            k == bounds@.len() ==> batches@.last().len() == (n as int) % c,
        decreases bounds@.len() - k,
    {
        let (start, end) = bounds[k];
        proof {
            assert((start, end) == bounds@[k as int]);
            let ni = n as int;
            let ki = k as int;
            vstd::arithmetic::div_mod::lemma_fundamental_div_mod(ni, c);
            vstd::arithmetic::div_mod::lemma_mod_bound(ni, c);
            assert((ki + 1) * c == ki * c + c) by (nonlinear_arith);
            assert((ni / c) * c == c * (ni / c)) by (nonlinear_arith);
            if ki + 1 < bounds@.len() {
                vstd::arithmetic::mul::lemma_mul_inequality(ki + 1, ni / c, c);
            } else {
                assert(ki == ni / c);
                assert(ki * c == (ni / c) * c);
            }
            assert(end == if ki + 1 == bounds@.len() { ni } else { (ki + 1) * c });
        }
        let batch = encode_range(plan, docs, start, end);
        let ghost before = batches@;
        batches.push(batch);
        proof {
            lemma_entries_of_encoding(batch, p, docs@.subrange(start as int, end as int));
            assert(batches@.drop_last() =~= before);
            assert(docs@.take(end as int) =~= docs@.take(start as int) + docs@.subrange(start as int, end as int));
            assert(encoded_entries(p, docs@.take(end as int)) =~= encoded_entries(p, docs@.take(start as int))
                + encoded_entries(p, docs@.subrange(start as int, end as int)));
            assert forall|i: int| 0 <= i < batches@.len() implies (#[trigger] batches@[i]).wf() && batches@[i].len() <= chunk_size by {
                if i < before.len() {
                    assert(batches@[i] == before[i]);
                }
            }
            assert forall|i: int| 0 <= i < batches@.len() implies (#[trigger] batches@[i]).columns@.len() == p.len() by {
                if i < before.len() {
                    assert(batches@[i] == before[i]);
                }
            }
            assert forall|i: int, j: int| 0 <= i < batches@.len() && 0 <= j < p.len() implies column_type(
                #[trigger] batches@[i].columns@[j],
            ) == p[j].1 by {
                if i < before.len() {
                    assert(batches@[i] == before[i]);
                }
            }
            assert forall|i: int| 0 <= i < k + 1 && i < bounds@.len() - 1 implies (#[trigger] batches@[i]).len() == chunk_size by {
                if i < before.len() {
                    assert(batches@[i] == before[i]);
                }
            }
        }
        k = k + 1;
    }
    assert(docs@.take(n as int) =~= docs@);
    batches
}

/// Encoding is deterministic and blind to chunking: two encodings of the
/// same documents under the same plan hold the same ids and the same cell
/// values, row for row, whatever chunk sizes they were made with.
pub proof fn lemma_encoding_independent_of_chunking(
    p: Seq<BucketView>,
    docs: Seq<Document>,
    first: Seq<Batch>,
    first_chunk: nat,
    second: Seq<Batch>,
    second_chunk: nat,
)
    requires
        encodes_in_chunks(first, p, docs, first_chunk),
        encodes_in_chunks(second, p, docs, second_chunk),
    ensures
        all_entries(first) == all_entries(second),
        all_entries(first) == encoded_entries(p, docs),
{
}

} // verus!
