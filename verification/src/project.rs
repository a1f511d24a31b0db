//! The index projector: per output chunk, each contributing source's
//! original position.

use vstd::prelude::*;

use crate::merge::{models, multidiff, restriction, valid_merge, Chunk, ChunkModel};

verus! {

/// What one cell of the projection table holds: the position of chunk `e`'s
/// value within source `s`, or `None` when source `s` did not contribute.
///
/// A contributing chunk's position is the number of earlier chunks that
/// source `s` also contributed to, which is exactly the offset of the
/// matched element within that source.
pub open spec fn projected_cell(out: Seq<ChunkModel>, e: int, s: usize) -> Option<usize> {
    if out[e].sources.contains(s) {
        Some(restriction(out.take(e), s).len() as usize)
    } else {
        None
    }
}

/// A restriction never holds more chunks than it was taken from.
proof fn lemma_restriction_len_le(s: Seq<ChunkModel>, i: usize)
    ensures
        restriction(s, i).len() <= s.len(),
    decreases s.len(),
{
    if s.len() > 0 {
        lemma_restriction_len_le(s.skip(1), i);
    }
}

/// Appending a chunk extends a restriction by its value, or not at all.
proof fn lemma_restriction_push(s: Seq<ChunkModel>, c: ChunkModel, i: usize)
    ensures
        c.sources.contains(i) ==> restriction(s.push(c), i) == restriction(s, i).push(c.value),
        !c.sources.contains(i) ==> restriction(s.push(c), i) == restriction(s, i),
    decreases s.len(),
{
    if s.len() == 0 {
        assert(s.push(c)[0] == c);
        assert(s.push(c).skip(1) =~= Seq::<ChunkModel>::empty());
        assert(restriction(Seq::<ChunkModel>::empty(), i) =~= Seq::<u64>::empty());
        assert(restriction(s, i) =~= Seq::<u64>::empty());
        if c.sources.contains(i) {
            assert(restriction(s.push(c), i) =~= restriction(s, i).push(c.value));
        } else {
            assert(restriction(s.push(c), i) =~= restriction(s, i));
        }
    } else {
        lemma_restriction_push(s.skip(1), c, i);
        assert(s.push(c)[0] == s[0]);
        assert(s.push(c).skip(1) =~= s.skip(1).push(c));
        if c.sources.contains(i) {
            assert(restriction(s.push(c), i) =~= restriction(s, i).push(c.value));
        } else {
            assert(restriction(s.push(c), i) =~= restriction(s, i));
        }
    }
}

/// Projects a merged output onto source positions: row `e` of the table
/// holds, for every source index below `num_sources`, the position within
/// that source of chunk `e`'s value, or `None` when the source did not
/// contribute to chunk `e`.
pub fn project(out: &Vec<Chunk>, num_sources: usize) -> (table: Vec<Vec<Option<usize>>>)
    ensures
        table@.len() == out@.len(),
        forall|e: int| 0 <= e < table@.len() ==> (#[trigger] table@[e])@.len() == num_sources,
        forall|e: int, s: usize|
            0 <= e < table@.len() && s < num_sources ==> (#[trigger] table@[e]@[s as int])
                == projected_cell(models(out@), e, s),
{
    let ghost m = models(out@);
    let total = out.len();
    let mut counters: Vec<usize> = Vec::new();
    while counters.len() < num_sources
        invariant
            counters@.len() <= num_sources,
            forall|t: int| 0 <= t < counters@.len() ==> counters@[t] == 0,
        decreases num_sources - counters@.len(),
    {
        counters.push(0);
    }
    let mut table: Vec<Vec<Option<usize>>> = Vec::new();
    let mut e: usize = 0;
    proof {
        assert(m.take(0) =~= Seq::<ChunkModel>::empty());
    }
    while e < total
        invariant
            e <= total,
            total == out@.len(),
            m == models(out@),
            counters@.len() == num_sources,
            table@.len() == e,
            forall|t: usize|
                t < num_sources ==> counters@[t as int] == restriction(
                    m.take(e as int),
                    t,
                ).len(),
            forall|ee: int| 0 <= ee < e ==> (#[trigger] table@[ee])@.len() == num_sources,
            forall|ee: int, s: usize|
                0 <= ee < e && s < num_sources ==> (#[trigger] table@[ee]@[s as int])
                    == projected_cell(m, ee, s),
        decreases total - e,
    {
        let ghost prefix = m.take(e as int);
        proof {
            assert(m.take(e + 1) =~= prefix.push(m[e as int]));
            assert(m[e as int] == out@[e as int]@);
            lemma_restriction_len_le(prefix, 0usize);
        }
        let chunk = &out[e];
        let mut row: Vec<Option<usize>> = Vec::new();
        let mut s: usize = 0;
        while s < num_sources
            invariant
                s <= num_sources,
                e < total,
                total == out@.len(),
                m == models(out@),
                prefix == m.take(e as int),
                m[e as int] == out@[e as int]@,
                chunk == &out[e as int],
                counters@.len() == num_sources,
                row@.len() == s,
                forall|t: usize|
                    t < s ==> counters@[t as int] == restriction(m.take(e + 1), t).len(),
                forall|t: usize|
                    s <= t < num_sources ==> counters@[t as int] == restriction(
                        prefix,
                        t,
                    ).len(),
                forall|t: int|
                    0 <= t < s ==> (#[trigger] row@[t]) == projected_cell(m, e as int, t as usize),
            decreases num_sources - s,
        {
            proof {
                assert(m.take(e + 1) =~= prefix.push(m[e as int]));
                lemma_restriction_push(prefix, m[e as int], s);
                lemma_restriction_len_le(prefix, s);
                assert(prefix.len() == e);
            }
            if chunk.appears_in.contains(s) {
                row.push(Some(counters[s]));
                let bumped = counters[s] + 1;
                counters.set(s, bumped);
            } else {
                row.push(None);
            }
            s = s + 1;
        }
        table.push(row);
        e = e + 1;
    }
    table
}

/// Merges the given sequences and projects the result onto source
/// positions, returning the merged chunks together with the projection
/// table.
pub fn multidiff_indexes(to_diff: &Vec<Vec<u64>>) -> (r: (Vec<Chunk>, Vec<Vec<Option<usize>>>))
    ensures
        valid_merge(to_diff@, models(r.0@)),
        r.1@.len() == r.0@.len(),
        forall|e: int| 0 <= e < r.1@.len() ==> (#[trigger] r.1@[e])@.len() == to_diff@.len(),
        forall|e: int, s: usize|
            0 <= e < r.1@.len() && s < to_diff@.len() ==> (#[trigger] r.1@[e]@[s as int])
                == projected_cell(models(r.0@), e, s),
{
    let out = multidiff(to_diff);
    let table = project(&out, to_diff.len());
    (out, table)
}

} // verus!
