use vstd::prelude::*;

use crate::rank::text_of;
use crate::record::{TaxonomyRecord, TaxonomyRelation};

verus! {

/// The most bound parameters that SQLite takes in one statement.
pub const SQLITE_LIMIT: usize = 32766;

/// Columns of a `taxonomy_record` row: id, name, rank.
pub const RECORD_COLUMNS: usize = 3;

/// Columns of a `taxonomy_relation` row: parent id, child id, rank.
pub const RELATION_COLUMNS: usize = 3;

/// Rows per insert statement, so that rows times columns stays within the limit.
pub fn batch_size(limit: usize, width: usize) -> (r: usize)
    requires
        width > 0,
    ensures
        r == limit / width,
{
    limit / width
}

/// The `k`-th batch of `len` rows cut into batches of `size`.
pub open spec fn chunk_spec(len: nat, size: nat, k: nat) -> (nat, nat) {
    (k * size, if (k + 1) * size <= len { (k + 1) * size } else { len })
}

/// Cuts `len` rows into consecutive batches of `size` rows, the last one
/// possibly shorter: the bounds `[start, end)` of each.
pub fn chunk_bounds(len: usize, size: usize) -> (r: Vec<(usize, usize)>)
    requires
        size > 0,
    ensures
        r@.len() * size >= len,
        r@.len() == 0 || (r@.len() - 1) * size < len,
        forall|k: int|
            0 <= k < r@.len() ==> (#[trigger] r@[k]).0 as nat == chunk_spec(len as nat, size as nat, k as nat).0
                && r@[k].1 as nat == chunk_spec(len as nat, size as nat, k as nat).1,
        forall|k: int| 0 <= k < r@.len() ==> (#[trigger] r@[k]).0 < r@[k].1 && r@[k].1 - r@[k].0 <= size,
{
    let mut r: Vec<(usize, usize)> = Vec::new();
    let mut start: usize = 0;
    proof {
        assert(r@.len() * size == 0) by (nonlinear_arith)
            requires
                r@.len() == 0,
        ;
    }
    while start < len
        invariant
            size > 0,
            start as nat == r@.len() * size || (start == len && r@.len() * size >= len),
            start <= len,
            r@.len() == 0 || (r@.len() - 1) * size < len,
            start < len ==> start as nat == r@.len() * size,
            forall|k: int|
                0 <= k < r@.len() ==> (#[trigger] r@[k]).0 as nat == chunk_spec(len as nat, size as nat, k as nat).0
                    && r@[k].1 as nat == chunk_spec(len as nat, size as nat, k as nat).1,
            forall|k: int| 0 <= k < r@.len() ==> (#[trigger] r@[k]).0 < r@[k].1 && r@[k].1 - r@[k].0 <= size,
        decreases len - start,
    {
        let ghost k = r@.len();
        let end: usize = if len - start <= size { len } else { start + size };
        proof {
            assert((k + 1) * size == k * size + size) by (nonlinear_arith);
        }
        r.push((start, end));
        start = end;
    }
    proof {
        if r@.len() == 0 {
            assert(len == 0);
        }
    }
    r
}

/// No batch of `size = limit / width` rows binds more than
/// `(limit / width) * width` parameters, nor more than `limit`.
pub proof fn lemma_batch_within_limit(limit: nat, width: nat, len: nat, k: nat)
    requires
        width > 0,
        limit / width > 0,
    ensures
        ({
            let b = chunk_spec(len, limit / width, k);
            b.0 <= b.1 ==> (b.1 - b.0) * width <= (limit / width) * width && (limit / width) * width <= limit
        }),
{
    let size = limit / width;
    let b = chunk_spec(len, size, k);
    assert((k + 1) * size == k * size + size) by (nonlinear_arith);
    if b.0 <= b.1 {
        assert(b.1 - b.0 <= size);
        assert((b.1 - b.0) * width <= size * width) by (nonlinear_arith)
            requires
                b.1 - b.0 <= size,
        ;
    }
    assert(size * width <= limit) by (nonlinear_arith)
        requires
            size == limit / width,
            width > 0,
    ;
}

/// A relation row: the record's parent id, the descendant's id, and the
/// descendant's rank as text.
pub open spec fn relation_row(rec: TaxonomyRecord, c: TaxonomyRelation) -> (u32, u32, Seq<char>) {
    (rec.parent_id, c.id, text_of(c.rank))
}

/// All relation rows, record after record, each record's descendants in order.
pub open spec fn relation_rows_spec(recs: Seq<TaxonomyRecord>) -> Seq<(u32, u32, Seq<char>)>
    decreases recs.len(),
{
    if recs.len() == 0 {
        Seq::empty()
    } else {
        let last = recs.last();
        relation_rows_spec(recs.drop_last()) + last.children@.map_values(|c: TaxonomyRelation| relation_row(last, c))
    }
}

pub open spec fn row_view(r: (u32, u32, String)) -> (u32, u32, Seq<char>) {
    (r.0, r.1, r.2@)
}

/// The rows of the relation table: for each descendant of each record, the
/// record's parent id, the descendant's id and its rank. Rows are keyed by
/// the ancestor's parent id, not by the ancestor's own id, as the stored
/// table has always been filled.
pub fn relation_rows(recs: &Vec<TaxonomyRecord>) -> (r: Vec<(u32, u32, String)>)
    ensures
        r@.map_values(|x: (u32, u32, String)| row_view(x)) == relation_rows_spec(recs@),
{
    let mut rows: Vec<(u32, u32, String)> = Vec::new();
    let mut i: usize = 0;
    while i < recs.len()
        invariant
            i <= recs@.len(),
            rows@.map_values(|x: (u32, u32, String)| row_view(x)) == relation_rows_spec(recs@.take(i as int)),
        decreases recs@.len() - i,
    {
        let rec = &recs[i];
        let ghost before = rows@.map_values(|x: (u32, u32, String)| row_view(x));
        let mut k: usize = 0;
        while k < rec.children.len()
            invariant
                i < recs@.len(),
                *rec == recs@[i as int],
                k <= rec.children@.len(),
                rows@.map_values(|x: (u32, u32, String)| row_view(x)) == before + rec.children@.take(k as int).map_values(
                    |c: TaxonomyRelation| relation_row(*rec, c),
                ),
            decreases rec.children@.len() - k,
        {
            let c = &rec.children[k];
            let row = (rec.parent_id, c.id, c.rank.to_string());
            let ghost old_rows = rows@;
            rows.push(row);
            proof {
                let lhs = rows@.map_values(|x: (u32, u32, String)| row_view(x));
                let mid = rec.children@.take(k as int).map_values(|c: TaxonomyRelation| relation_row(*rec, c));
                let nxt = rec.children@.take(k + 1).map_values(|c: TaxonomyRelation| relation_row(*rec, c));
                assert(rows@ == old_rows.push(row));
                assert(row_view(row) == relation_row(*rec, rec.children@[k as int]));
                assert(old_rows.map_values(|x: (u32, u32, String)| row_view(x)) == before + mid);
                assert(nxt =~= mid.push(relation_row(*rec, rec.children@[k as int])));
                assert(lhs =~= old_rows.map_values(|x: (u32, u32, String)| row_view(x)).push(row_view(row)));
                assert(lhs =~= before + nxt);
            }
            k = k + 1;
        }
        proof {
            assert(rec.children@.take(k as int) =~= rec.children@);
            assert(recs@.take(i + 1).drop_last() =~= recs@.take(i as int));
            assert(recs@.take(i + 1).last() == *rec);
        }
        i = i + 1;
    }
    proof {
        assert(recs@.take(recs@.len() as int) =~= recs@);
    }
    rows
}

/// A record row: id, scientific name, and rank as text.
pub open spec fn record_row(rec: TaxonomyRecord) -> (u32, Seq<char>, Seq<char>) {
    (rec.id, rec.scientific_name@, text_of(rec.rank))
}

/// The rows of the record table, one per record, in order.
pub fn record_rows(recs: &Vec<TaxonomyRecord>) -> (r: Vec<(u32, String, String)>)
    ensures
        r@.len() == recs@.len(),
        forall|i: int|
            0 <= i < r@.len() ==> ((#[trigger] r@[i]).0, r@[i].1@, r@[i].2@) == record_row(recs@[i]),
{
    let mut rows: Vec<(u32, String, String)> = Vec::new();
    let mut i: usize = 0;
    while i < recs.len()
        invariant
            i <= recs@.len(),
            rows@.len() == i,
            forall|j: int|
                0 <= j < i ==> ((#[trigger] rows@[j]).0, rows@[j].1@, rows@[j].2@) == record_row(recs@[j]),
        decreases recs@.len() - i,
    {
        let rec = &recs[i];
        rows.push((rec.id, rec.scientific_name.clone(), rec.rank.to_string()));
        i = i + 1;
    }
    rows
}

} // verus!
