//! Column names: each bucket is stored under a name from which its key and
//! type can be read back, so a stored schema alone gives back its plan.

use crate::plan::{plan_view, plan_wf, Bucket, BucketType, BucketView};
use vstd::prelude::*;
use vstd::string::{StrSliceExecFns, StringExecFns};

verus! {

/// The name of the document id column, which precedes the bucket columns.
pub const ID_COLUMN: &'static str = "::id::";

pub open spec fn id_column() -> Seq<char> {
    seq![':', ':', 'i', 'd', ':', ':']
}

pub open spec fn type_tag(ty: BucketType) -> char {
    match ty {
        BucketType::Single => '0',
        BucketType::Multi => '1',
    }
}

/// A bucket's column name: its key, a colon, and `0` for `Single` or `1`
/// for `Multi`.
pub open spec fn column_name_of(key: Seq<char>, ty: BucketType) -> Seq<char> {
    key + seq![':', type_tag(ty)]
}

/// The bucket a column name stands for, if it is one.
pub open spec fn parse_column(name: Seq<char>) -> Option<BucketView> {
    if name.len() >= 2 && name[name.len() - 2] == ':' && name.last() == '0' {
        Some((name.take(name.len() - 2), BucketType::Single))
    } else if name.len() >= 2 && name[name.len() - 2] == ':' && name.last() == '1' {
        Some((name.take(name.len() - 2), BucketType::Multi))
    } else {
        None
    }
}

/// The stored column names of a plan: the id column, then one per bucket.
pub open spec fn schema_of(p: Seq<BucketView>) -> Seq<Seq<char>> {
    seq![id_column()] + p.map_values(|b: BucketView| column_name_of(b.0, b.1))
}

/// The plan that a schema was written with: every column after the id
/// column must name a bucket, and the buckets must form a usable plan.
pub open spec fn schema_plan(names: Seq<Seq<char>>) -> Option<Seq<BucketView>> {
    if names.len() >= 2 && names[0] == id_column() && (forall|i: int|
        1 <= i < names.len() ==> #[trigger] parse_column(names[i]) is Some) {
        let p = Seq::new((names.len() - 1) as nat, |i: int| parse_column(names[i + 1])->Some_0);
        if plan_wf(p) {
            Some(p)
        } else {
            None
        }
    } else {
        None
    }
}

/// A column name reads back as the bucket it was made from.
pub proof fn lemma_column_name_round_trip(key: Seq<char>, ty: BucketType)
    ensures
        parse_column(column_name_of(key, ty)) == Some((key, ty)),
{
    let n = column_name_of(key, ty);
    assert(n.take(n.len() - 2) =~= key);
}

/// A name that reads as a bucket is that bucket's column name.
pub proof fn lemma_parsed_column_name(name: Seq<char>)
    requires
        parse_column(name) is Some,
    ensures
        column_name_of(parse_column(name)->Some_0.0, parse_column(name)->Some_0.1) == name,
{
    let b = parse_column(name)->Some_0;
    assert(column_name_of(b.0, b.1) =~= name);
}

/// The schema written for a usable plan gives back that plan.
pub proof fn lemma_schema_round_trip(p: Seq<BucketView>)
    requires
        plan_wf(p),
    ensures
        schema_plan(schema_of(p)) == Some(p),
{
    let names = schema_of(p);
    assert forall|i: int| 1 <= i < names.len() implies #[trigger] parse_column(names[i]) is Some
        && parse_column(names[i])->Some_0 == p[i - 1] by {
        lemma_column_name_round_trip(p[i - 1].0, p[i - 1].1);
    }
    let q = Seq::new((names.len() - 1) as nat, |i: int| parse_column(names[i + 1])->Some_0);
    assert(q =~= p);
}

impl BucketType {
    /// The column name of the bucket with this type and key `token`.
    pub fn column_name(&self, token: &str) -> (r: String)
        ensures
            r@ == column_name_of(token@, *self),
    {
        let mut name = String::from_str(token);
        match self {
            BucketType::Single => {
                proof {
                    reveal_strlit(":0");
                }
                name.append(":0");
            },
            BucketType::Multi => {
                proof {
                    reveal_strlit(":1");
                }
                name.append(":1");
            },
        }
        assert(name@ =~= column_name_of(token@, *self));
        name
    }
}

/// Reads a column name back as the bucket it names.
pub fn parse_column_name(name: &str) -> (r: Option<Bucket>)
    ensures
        r is Some <==> parse_column(name@) is Some,
        r is Some ==> parse_column(name@) == Some((r->Some_0.0@, r->Some_0.1)),
{
    let n = name.unicode_len();
    if n < 2 {
        return None;
    }
    if name.get_char(n - 2) != ':' {
        return None;
    }
    let tag = name.get_char(n - 1);
    let ty = if tag == '0' {
        BucketType::Single
    } else if tag == '1' {
        BucketType::Multi
    } else {
        return None;
    };
    let key = name.substring_char(0, n - 2);
    assert(key@ =~= name@.take(n - 2));
    Some((String::from_str(key), ty))
}

/// The column names to store a plan under.
pub fn schema_names(plan: &Vec<Bucket>) -> (r: Vec<String>)
    ensures
        r@.map_values(|s: String| s@) == schema_of(plan_view(plan@)),
{
    let mut names: Vec<String> = Vec::new();
    proof {
        reveal_strlit("::id::");
    }
    let id = String::from_str(ID_COLUMN);
    assert(id@ =~= id_column());
    names.push(id);
    assert(plan_view(plan@.take(0)) =~= Seq::<BucketView>::empty());
    let mut i: usize = 0;
    while i < plan.len()
        invariant
            i <= plan@.len(),
            names@.map_values(|s: String| s@) =~= schema_of(plan_view(plan@.take(i as int))),
        decreases plan@.len() - i,
    {
        let name = plan[i].1.column_name(plan[i].0.as_str());
        let ghost before = names@;
        names.push(name);
        proof {
            let pv = plan_view(plan@.take(i as int));
            let b = (plan@[i as int].0@, plan@[i as int].1);
            assert(names@.map_values(|s: String| s@) =~= before.map_values(|s: String| s@).push(name@));
            assert(schema_of(pv.push(b)) =~= schema_of(pv).push(column_name_of(b.0, b.1)));
            assert(plan@.take(i + 1) =~= plan@.take(i as int).push(plan@[i as int]));
            assert(plan_view(plan@.take(i + 1)) =~= plan_view(plan@.take(i as int)).push(
                (plan@[i as int].0@, plan@[i as int].1),
            ));
            assert(names@.map_values(|s: String| s@) =~= schema_of(plan_view(plan@.take(i + 1))));
        }
        i = i + 1;
    }
    assert(plan@.take(plan@.len() as int) =~= plan@);
    names
}

} // verus!
