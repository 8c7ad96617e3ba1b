use vstd::prelude::*;
use crate::record::{Record, RecordView, views_of};

verus! {

/// The chunk size that a run of the loader uses.
pub const CHUNK_SIZE: usize = 100;

pub open spec fn min(a: int, b: int) -> int {
    if a <= b { a } else { b }
}

/// How many chunks of at most `c` items `n` items make: `n / c`, rounded up.
pub open spec fn chunk_count(n: int, c: int) -> int {
    (n + c - 1) / c
}

/// The `k`-th chunk of `rs`: its items from `k * c` up to `(k + 1) * c`.
pub open spec fn chunk_at<A>(rs: Seq<A>, c: int, k: int) -> Seq<A> {
    rs.subrange(k * c, min((k + 1) * c, rs.len() as int))
}

/// `rs` cut into consecutive chunks of `c` items, the last one possibly shorter.
pub open spec fn chunked<A>(rs: Seq<A>, c: int) -> Seq<Seq<A>> {
    Seq::new(chunk_count(rs.len() as int, c) as nat, |k: int| chunk_at(rs, c, k))
}

/// The views of the records of each chunk.
pub open spec fn chunk_views(cs: Seq<Vec<Record>>) -> Seq<Seq<RecordView>> {
    cs.map_values(|v: Vec<Record>| views_of(v@))
}

proof fn lemma_count_bounds(n: int, c: int)
    requires
        n >= 0,
        c > 0,
    ensures
        chunk_count(n, c) >= 0,
        chunk_count(n, c) * c >= n,
        (chunk_count(n, c) - 1) * c < n,
{
    let q = (n + c - 1) / c;
    let r = (n + c - 1) % c;
    vstd::arithmetic::div_mod::lemma_fundamental_div_mod(n + c - 1, c);
    assert(0 <= r < c);
    assert(n + c - 1 == c * q + r);
    assert(q >= 0) by (nonlinear_arith)
        requires n + c - 1 == c * q + r, 0 <= r < c, n >= 0, c > 0;
    assert(q * c >= n) by (nonlinear_arith)
        requires n + c - 1 == c * q + r, r < c;
    assert((q - 1) * c < n) by (nonlinear_arith)
        requires n + c - 1 == c * q + r, r >= 0;
}

/// The chunks before the `q`-th, put back together, are the items before `q * c`.
proof fn lemma_prefix_flatten<A>(rs: Seq<A>, c: int, q: int)
    requires
        c > 0,
        0 <= q,
        (q - 1) * c < rs.len(),
    ensures
        Seq::new(q as nat, |k: int| chunk_at(rs, c, k)).flatten() =~= rs.subrange(0, min(q * c, rs.len() as int)),
    decreases q,
{
    let s = Seq::new(q as nat, |k: int| chunk_at(rs, c, k));
    if q == 0 {
        assert(s =~= Seq::<Seq<A>>::empty());
    } else {
        let p = Seq::new((q - 1) as nat, |k: int| chunk_at(rs, c, k));
        assert((q - 2) * c < rs.len()) by (nonlinear_arith)
            requires (q - 1) * c < rs.len(), c > 0;
        assert((q - 1) * c <= q * c) by (nonlinear_arith)
            requires c > 0;
        assert((q - 1) * c >= 0) by (nonlinear_arith)
            requires c > 0, q >= 1;
        lemma_prefix_flatten(rs, c, q - 1);
        assert(s =~= p.push(chunk_at(rs, c, q - 1)));
        p.lemma_flatten_push(chunk_at(rs, c, q - 1));
        assert(min((q - 1) * c, rs.len() as int) == (q - 1) * c);
        assert(q * c == (q - 1 + 1) * c);
    }
}

/// Cutting records into chunks loses, repeats and reorders nothing: the
/// chunks, put back together in order, are the records. There are
/// `len / c` chunks rounded up; none is longer than `c` and none is empty;
/// all but the last hold exactly `c`.
pub proof fn lemma_chunks_round_trip<A>(rs: Seq<A>, c: int)
    requires
        c > 0,
    ensures
        chunked(rs, c).len() == chunk_count(rs.len() as int, c),
        chunked(rs, c).flatten() == rs,
        forall|k: int| 0 <= k < chunked(rs, c).len() ==> 0 < (#[trigger] chunked(rs, c)[k]).len() <= c,
        forall|k: int| 0 <= k < chunked(rs, c).len() - 1 ==> (#[trigger] chunked(rs, c)[k]).len() == c,
{
    let n = rs.len() as int;
    lemma_count_bounds(n, c);
    let q = chunk_count(n, c);
    lemma_prefix_flatten(rs, c, q);
    assert(rs.subrange(0, n) =~= rs);
    assert forall|k: int| 0 <= k < q implies 0 < (#[trigger] chunked(rs, c)[k]).len() <= c
        && (k < q - 1 ==> chunked(rs, c)[k].len() == c) by {
        assert(k * c <= (q - 1) * c) by (nonlinear_arith)
            requires k <= q - 1, c > 0;
        assert((k + 1) * c == k * c + c) by (nonlinear_arith);
        assert(k * c >= 0) by (nonlinear_arith)
            requires k >= 0, c > 0;
        if k < q - 1 {
            assert((k + 1) * c <= (q - 1) * c) by (nonlinear_arith)
                requires k + 1 <= q - 1, c > 0;
        }
    }
}

/// Cuts `records` into consecutive chunks of `size`, in order; only the last
/// chunk may be shorter. No records give no chunks.
pub fn chunk_records(records: &Vec<Record>, size: usize) -> (r: Vec<Vec<Record>>)
    requires
        size > 0,
    ensures
        chunk_views(r@) == chunked(views_of(records@), size as int),
{
    let n = records.len();
    let ghost rs = views_of(records@);
    let mut out: Vec<Vec<Record>> = Vec::new();
    let mut start: usize = 0;
    proof {
        lemma_count_bounds(n as int, size as int);
        assert(out@.len() * size == 0) by (nonlinear_arith)
            requires out@.len() == 0;
    }
    while start < n
        invariant
            n == records@.len(),
            rs == views_of(records@),
            size > 0,
            start == min(out@.len() * size, n as int),
            out@.len() <= chunk_count(n as int, size as int),
            start < n ==> out@.len() < chunk_count(n as int, size as int),
            chunk_count(n as int, size as int) * size >= n,
            (chunk_count(n as int, size as int) - 1) * size < n,
            forall|k: int| 0 <= k < out@.len() ==> views_of((#[trigger] out@[k])@) == chunk_at(rs, size as int, k),
        decreases n - start,
    {
        let ghost k = out@.len() as int;
        assert(start == k * size) by (nonlinear_arith)
            requires start == min(k * size, n as int), start < n;
        let end: usize = if n - start > size { start + size } else { n };
        assert(end == min((k + 1) * size, n as int)) by (nonlinear_arith)
            requires start == k * size, end == (if n - start > size { start + size } else { n as int });
        let mut chunk: Vec<Record> = Vec::new();
        let mut j: usize = start;
        while j < end
            invariant
                start <= j <= end <= n,
                n == records@.len(),
                rs == views_of(records@),
                views_of(chunk@) == rs.subrange(start as int, j as int),
            decreases end - j,
        {
            let rec = records[j].duplicate();
            let ghost before = chunk@;
            chunk.push(rec);
            assert(views_of(chunk@) =~= views_of(before).push(rec@));
            assert(rs.subrange(start as int, j + 1) =~= rs.subrange(start as int, j as int).push(rs[j as int]));
            j += 1;
        }
        out.push(chunk);
        start = end;
        proof {
            if start < n {
                assert(out@.len() * size < n);
                assert(out@.len() < chunk_count(n as int, size as int)) by (nonlinear_arith)
                    requires out@.len() * size < n, chunk_count(n as int, size as int) * size >= n, size > 0;
            }
        }
        assert(forall|m: int| 0 <= m < out@.len() ==> views_of((#[trigger] out@[m])@) == chunk_at(rs, size as int, m));
    }
    proof {
        let q = chunk_count(n as int, size as int);
        assert(out@.len() == q) by (nonlinear_arith)
            requires out@.len() <= q, min(out@.len() * size, n as int) == n, (q - 1) * size < n, size > 0,
                n as int == n;
    }
    assert(chunk_views(out@) =~= chunked(rs, size as int));
    out
}

} // verus!
