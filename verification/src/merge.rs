//! The fold engine: merging `K` sequences into one provenance-tagged output.

use vstd::prelude::*;

use crate::align::{
    lcs_len, lemma_equal_inputs_all_both, lemma_replays_counts, replays, diff_slice, EditOp,
};
use crate::provenance::{strictly_increasing, ProvenanceSet};

verus! {

/// One output element: a value together with the sources it appears in.
#[derive(Debug, Clone)]
pub struct Chunk {
    /// The merged value.
    pub value: u64,
    /// The indices of the sources that contributed this value, in increasing
    /// order.
    pub appears_in: ProvenanceSet,
}

/// The mathematical content of a [`Chunk`].
pub ghost struct ChunkModel {
    /// The merged value.
    pub value: u64,
    /// The indices of the contributing sources, in increasing order.
    pub sources: Seq<usize>,
}

impl View for Chunk {
    type V = ChunkModel;

    open spec fn view(&self) -> ChunkModel {
        ChunkModel { value: self.value, sources: self.appears_in@ }
    }
}

/// The models of a sequence of chunks.
pub open spec fn models(s: Seq<Chunk>) -> Seq<ChunkModel> {
    s.map_values(|c: Chunk| c@)
}

/// The values of a sequence of chunk models.
pub open spec fn values(s: Seq<ChunkModel>) -> Seq<u64> {
    s.map_values(|c: ChunkModel| c.value)
}

/// The values of the chunks whose provenance holds `i`, in order.
pub open spec fn restriction(s: Seq<ChunkModel>, i: usize) -> Seq<u64>
    decreases s.len(),
{
    if s.len() == 0 {
        Seq::empty()
    } else {
        let rest = restriction(s.skip(1), i);
        if s[0].sources.contains(i) {
            seq![s[0].value] + rest
        } else {
            rest
        }
    }
}

/// Says that a provenance set is well formed for an output of `bound`
/// sources: non-empty, strictly increasing, and every index below `bound`.
pub open spec fn wf_sources(s: Seq<usize>, bound: int) -> bool {
    &&& s.len() > 0
    &&& strictly_increasing(s)
    &&& forall|a: int| 0 <= a < s.len() ==> s[a] < bound
}

/// Every chunk of `s` has a well-formed provenance set below `bound`.
pub open spec fn all_wf(s: Seq<ChunkModel>, bound: int) -> bool {
    forall|k: int| 0 <= k < s.len() ==> wf_sources((#[trigger] s[k]).sources, bound)
}

/// The provenance holding every source index below `count`, in order.
pub open spec fn full_provenance(count: nat) -> Seq<usize> {
    Seq::new(count, |j: int| j as usize)
}

/// `s` tagged element for element with the provenance `prov`.
pub open spec fn tagged(s: Seq<u64>, prov: Seq<usize>) -> Seq<ChunkModel> {
    s.map_values(|v: u64| ChunkModel { value: v, sources: prov })
}

/// `cur` with the source `i` appended to every chunk's provenance.
pub open spec fn tag_all(cur: Seq<ChunkModel>, i: usize) -> Seq<ChunkModel> {
    cur.map_values(|c: ChunkModel| ChunkModel { value: c.value, sources: c.sources.push(i) })
}

/// The accumulator that replaying `ops` against the accumulator `cur` and
/// the source `new` (with index `i`) produces:
/// - `Both` keeps the accumulated chunk and appends `i` to its provenance;
/// - `Left` keeps the accumulated chunk unchanged;
/// - `Right` inserts the source's element with provenance `{i}`.
pub open spec fn replay(ops: Seq<EditOp>, cur: Seq<ChunkModel>, new: Seq<u64>, i: usize) -> Seq<
    ChunkModel,
>
    decreases ops.len(),
{
    if ops.len() == 0 {
        Seq::empty()
    } else {
        match ops[0] {
            EditOp::Both => seq![
                ChunkModel { value: cur[0].value, sources: cur[0].sources.push(i) },
            ] + replay(ops.skip(1), cur.skip(1), new.skip(1), i),
            EditOp::Left => seq![cur[0]] + replay(ops.skip(1), cur.skip(1), new, i),
            EditOp::Right => seq![ChunkModel { value: new[0], sources: seq![i] }] + replay(
                ops.skip(1),
                cur,
                new.skip(1),
                i,
            ),
        }
    }
}

/// Replaying an edit script produces one chunk per step.
proof fn lemma_replay_len(ops: Seq<EditOp>, cur: Seq<ChunkModel>, new: Seq<u64>, i: usize)
    ensures
        replay(ops, cur, new, i).len() == ops.len(),
    decreases ops.len(),
{
    if ops.len() > 0 {
        match ops[0] {
            EditOp::Both => lemma_replay_len(ops.skip(1), cur.skip(1), new.skip(1), i),
            EditOp::Left => lemma_replay_len(ops.skip(1), cur.skip(1), new, i),
            EditOp::Right => lemma_replay_len(ops.skip(1), cur, new.skip(1), i),
        }
    }
}

/// Restricting the replayed accumulator to the just-folded source `i` reads
/// off that source exactly, provided no accumulated chunk already claims `i`.
proof fn lemma_replay_restriction_new(
    ops: Seq<EditOp>,
    cur: Seq<ChunkModel>,
    new: Seq<u64>,
    i: usize,
)
    requires
        replays(ops, values(cur), new),
        forall|k: int| 0 <= k < cur.len() ==> !(#[trigger] cur[k].sources).contains(i),
    ensures
        restriction(replay(ops, cur, new, i), i) == new,
    decreases ops.len(),
{
    let out = replay(ops, cur, new, i);
    if ops.len() == 0 {
        assert(restriction(out, i) =~= new);
    } else {
        match ops[0] {
            EditOp::Both => {
                assert(values(cur).skip(1) =~= values(cur.skip(1)));
                lemma_replay_restriction_new(ops.skip(1), cur.skip(1), new.skip(1), i);
                let head = ChunkModel { value: cur[0].value, sources: cur[0].sources.push(i) };
                assert(out[0] == head);
                assert(out.skip(1) =~= replay(ops.skip(1), cur.skip(1), new.skip(1), i));
                assert(head.sources.contains(i)) by {
                    assert(head.sources[head.sources.len() - 1] == i);
                }
                assert(values(cur)[0] == cur[0].value);
                assert(restriction(out, i) =~= new);
            }
            EditOp::Left => {
                assert(values(cur).skip(1) =~= values(cur.skip(1)));
                lemma_replay_restriction_new(ops.skip(1), cur.skip(1), new, i);
                assert(out[0] == cur[0]);
                assert(out.skip(1) =~= replay(ops.skip(1), cur.skip(1), new, i));
                assert(!cur[0].sources.contains(i));
                assert(restriction(out, i) =~= new);
            }
            EditOp::Right => {
                lemma_replay_restriction_new(ops.skip(1), cur, new.skip(1), i);
                let head = ChunkModel { value: new[0], sources: seq![i] };
                assert(out[0] == head);
                assert(out.skip(1) =~= replay(ops.skip(1), cur, new.skip(1), i));
                assert(head.sources.contains(i)) by {
                    assert(head.sources[0] == i);
                }
                assert(restriction(out, i) =~= new);
            }
        }
    }
}

/// Folding source `i` does not change the restriction to any other source.
proof fn lemma_replay_restriction_old(
    ops: Seq<EditOp>,
    cur: Seq<ChunkModel>,
    new: Seq<u64>,
    i: usize,
    j: usize,
)
    requires
        replays(ops, values(cur), new),
        j != i,
    ensures
        restriction(replay(ops, cur, new, i), j) == restriction(cur, j),
    decreases ops.len(),
{
    let out = replay(ops, cur, new, i);
    if ops.len() == 0 {
        assert(cur.len() == values(cur).len());
        assert(restriction(out, j) =~= restriction(cur, j));
    } else {
        match ops[0] {
            EditOp::Both => {
                assert(values(cur).skip(1) =~= values(cur.skip(1)));
                lemma_replay_restriction_old(ops.skip(1), cur.skip(1), new.skip(1), i, j);
                let head = ChunkModel { value: cur[0].value, sources: cur[0].sources.push(i) };
                assert(out[0] == head);
                assert(out.skip(1) =~= replay(ops.skip(1), cur.skip(1), new.skip(1), i));
                assert(head.sources.contains(j) == cur[0].sources.contains(j)) by {
                    lemma_push_contains(cur[0].sources, i, j);
                }
                assert(cur.len() > 0);
                assert(restriction(out, j) =~= restriction(cur, j));
            }
            EditOp::Left => {
                assert(values(cur).skip(1) =~= values(cur.skip(1)));
                lemma_replay_restriction_old(ops.skip(1), cur.skip(1), new, i, j);
                assert(out[0] == cur[0]);
                assert(out.skip(1) =~= replay(ops.skip(1), cur.skip(1), new, i));
                assert(cur.len() > 0);
                assert(restriction(out, j) =~= restriction(cur, j));
            }
            EditOp::Right => {
                lemma_replay_restriction_old(ops.skip(1), cur, new.skip(1), i, j);
                let head = ChunkModel { value: new[0], sources: seq![i] };
                assert(out[0] == head);
                assert(out.skip(1) =~= replay(ops.skip(1), cur, new.skip(1), i));
                assert(!head.sources.contains(j)) by {
                    assert(forall|a: int|
                        0 <= a < head.sources.len() ==> head.sources[a] == i);
                }
                assert(restriction(out, j) =~= restriction(cur, j));
            }
        }
    }
}

/// Membership after a push: the pushed index, or an index already present.
proof fn lemma_push_contains(s: Seq<usize>, i: usize, j: usize)
    ensures
        s.push(i).contains(j) == (s.contains(j) || i == j),
{
    if s.contains(j) {
        let a = choose|a: int| 0 <= a < s.len() && s[a] == j;
        assert(s.push(i)[a] == j);
    }
    if i == j {
        assert(s.push(i)[s.len() as int] == j);
    }
    if s.push(i).contains(j) && i != j {
        let a = choose|a: int| 0 <= a < s.push(i).len() && s.push(i)[a] == j;
        assert(s[a] == j);
    }
}

/// Replaying keeps every provenance set well formed, one bound higher.
proof fn lemma_replay_wf(ops: Seq<EditOp>, cur: Seq<ChunkModel>, new: Seq<u64>, i: usize)
    requires
        replays(ops, values(cur), new),
        all_wf(cur, i as int),
    ensures
        all_wf(replay(ops, cur, new, i), i + 1),
    decreases ops.len(),
{
    let out = replay(ops, cur, new, i);
    if ops.len() > 0 {
        match ops[0] {
            EditOp::Both => {
                assert(cur.len() == values(cur).len());
                assert(all_wf(cur.skip(1), i as int)) by {
                    assert forall|k: int| 0 <= k < cur.skip(1).len() implies wf_sources(
                        (#[trigger] cur.skip(1)[k]).sources,
                        i as int,
                    ) by {
                        assert(cur.skip(1)[k] == cur[k + 1]);
                    }
                }
                assert(values(cur).skip(1) =~= values(cur.skip(1)));
                lemma_replay_wf(ops.skip(1), cur.skip(1), new.skip(1), i);
                let head = ChunkModel { value: cur[0].value, sources: cur[0].sources.push(i) };
                assert(out[0] == head);
                assert(out.skip(1) =~= replay(ops.skip(1), cur.skip(1), new.skip(1), i));
                assert(cur.len() > 0);
                assert(wf_sources(cur[0].sources, i as int));
                assert(wf_sources(head.sources, i + 1)) by {
                    let s = cur[0].sources;
                    assert(forall|a: int, b: int|
                        0 <= a < b < s.push(i).len() ==> s.push(i)[a] < s.push(i)[b]) by {
                        assert(forall|a: int| 0 <= a < s.len() ==> s[a] < i);
                    }
                }
                assert forall|k: int| 0 <= k < out.len() implies wf_sources(
                    (#[trigger] out[k]).sources,
                    i + 1,
                ) by {
                    if k > 0 {
                        assert(out[k] == out.skip(1)[k - 1]);
                    }
                }
            }
            EditOp::Left => {
                assert(cur.len() == values(cur).len());
                assert(all_wf(cur.skip(1), i as int)) by {
                    assert forall|k: int| 0 <= k < cur.skip(1).len() implies wf_sources(
                        (#[trigger] cur.skip(1)[k]).sources,
                        i as int,
                    ) by {
                        assert(cur.skip(1)[k] == cur[k + 1]);
                    }
                }
                assert(values(cur).skip(1) =~= values(cur.skip(1)));
                lemma_replay_wf(ops.skip(1), cur.skip(1), new, i);
                assert(out[0] == cur[0]);
                assert(out.skip(1) =~= replay(ops.skip(1), cur.skip(1), new, i));
                assert(cur.len() > 0);
                assert(wf_sources(cur[0].sources, i as int));
                assert forall|k: int| 0 <= k < out.len() implies wf_sources(
                    (#[trigger] out[k]).sources,
                    i + 1,
                ) by {
                    if k > 0 {
                        assert(out[k] == out.skip(1)[k - 1]);
                    }
                }
            }
            EditOp::Right => {
                lemma_replay_wf(ops.skip(1), cur, new.skip(1), i);
                let head = ChunkModel { value: new[0], sources: seq![i] };
                assert(out[0] == head);
                assert(out.skip(1) =~= replay(ops.skip(1), cur, new.skip(1), i));
                assert(wf_sources(head.sources, i + 1));
                assert forall|k: int| 0 <= k < out.len() implies wf_sources(
                    (#[trigger] out[k]).sources,
                    i + 1,
                ) by {
                    if k > 0 {
                        assert(out[k] == out.skip(1)[k - 1]);
                    }
                }
            }
        }
    }
}

/// The summed length of a list of sources.
pub open spec fn total_len(s: Seq<Vec<u64>>) -> nat
    decreases s.len(),
{
    if s.len() == 0 {
        0
    } else {
        total_len(s.drop_last()) + s.last()@.len()
    }
}

/// Everything the fold guarantees of its output:
/// - restricting the output to any source index reads off that source
///   exactly, element for element and in order;
/// - every chunk's provenance is non-empty, strictly increasing, and within
///   bounds;
/// - the output is at least as long as every single source and at most as
///   long as all sources together;
/// - no sources produce an empty output;
/// - for two sources, the output is as short as an alignment allows: its
///   length falls short of the summed lengths by exactly the length of a
///   longest common subsequence;
/// - equal sources collapse completely: each element of the common sequence
///   appears once, tagged with every source index.
pub open spec fn valid_merge(sources: Seq<Vec<u64>>, out: Seq<ChunkModel>) -> bool {
    &&& forall|i: usize|
        i < sources.len() ==> restriction(out, i) == (#[trigger] sources[i as int])@
    &&& all_wf(out, sources.len() as int)
    &&& out.len() <= total_len(sources)
    &&& forall|i: int| 0 <= i < sources.len() ==> out.len() >= (#[trigger] sources[i])@.len()
    &&& sources.len() == 0 ==> out.len() == 0
    &&& sources.len() == 2 ==> out.len() + lcs_len(sources[0]@, sources[1]@) == sources[0]@.len()
        + sources[1]@.len()
    &&& (sources.len() > 0 && forall|i: int|
        0 <= i < sources.len() ==> (#[trigger] sources[i])@ == sources[0]@) ==> out == tagged(
        sources[0]@,
        full_provenance(sources.len() as nat),
    )
}

/// Restricting a uniformly tagged sequence yields all of it or none of it.
proof fn lemma_restriction_tagged(s: Seq<u64>, prov: Seq<usize>, i: usize)
    ensures
        prov.contains(i) ==> restriction(tagged(s, prov), i) == s,
        !prov.contains(i) ==> restriction(tagged(s, prov), i) == Seq::<u64>::empty(),
    decreases s.len(),
{
    if s.len() > 0 {
        lemma_restriction_tagged(s.skip(1), prov, i);
        assert(tagged(s, prov).skip(1) =~= tagged(s.skip(1), prov));
        assert(tagged(s, prov)[0] == ChunkModel { value: s[0], sources: prov });
        if prov.contains(i) {
            assert(seq![s[0]] + s.skip(1) =~= s);
        }
    }
}

/// Replaying an all-`Both` script re-tags the whole accumulator with `i`.
proof fn lemma_replay_all_both(ops: Seq<EditOp>, cur: Seq<ChunkModel>, new: Seq<u64>, i: usize)
    requires
        replays(ops, values(cur), new),
        forall|k: int| 0 <= k < ops.len() ==> ops[k] is Both,
    ensures
        replay(ops, cur, new, i) == tag_all(cur, i),
    decreases ops.len(),
{
    let out = replay(ops, cur, new, i);
    if ops.len() == 0 {
        assert(cur.len() == values(cur).len());
        assert(out =~= tag_all(cur, i));
    } else {
        assert(ops[0] is Both);
        assert(values(cur).skip(1) =~= values(cur.skip(1)));
        assert(forall|k: int| 0 <= k < ops.skip(1).len() ==> ops.skip(1)[k] == ops[k + 1]);
        lemma_replay_all_both(ops.skip(1), cur.skip(1), new.skip(1), i);
        assert(out.skip(1) =~= replay(ops.skip(1), cur.skip(1), new.skip(1), i));
        assert(out =~= tag_all(cur, i));
    }
}

/// The values of an accumulator, in order.
fn chunk_values(cur: &Vec<Chunk>) -> (vals: Vec<u64>)
    ensures
        vals@ == values(models(cur@)),
{
    let mut vals: Vec<u64> = Vec::new();
    let mut k: usize = 0;
    while k < cur.len()
        invariant
            k <= cur@.len(),
            vals@.len() == k,
            forall|a: int| 0 <= a < k ==> vals@[a] == (#[trigger] cur@[a])@.value,
        decreases cur@.len() - k,
    {
        vals.push(cur[k].value);
        k = k + 1;
    }
    proof {
        assert(vals@ =~= values(models(cur@)));
    }
    vals
}

/// Builds the next accumulator by replaying an edit script, as
/// [`replay`] describes.
fn apply_ops(ops: &Vec<EditOp>, current: &Vec<Chunk>, new: &Vec<u64>, i: usize) -> (next: Vec<
    Chunk,
>)
    requires
        replays(ops@, values(models(current@)), new@),
    ensures
        models(next@) == replay(ops@, models(current@), new@, i),
{
    let ghost mcur = models(current@);
    let ghost full = replay(ops@, mcur, new@, i);
    let cur_len = current.len();
    let new_len = new.len();
    let mut next: Vec<Chunk> = Vec::new();
    let mut k: usize = 0;
    let mut cur_idx: usize = 0;
    let mut new_idx: usize = 0;
    proof {
        assert(ops@.skip(0) =~= ops@);
        assert(mcur.skip(0) =~= mcur);
        assert(new@.skip(0) =~= new@);
        assert(values(mcur).skip(0) =~= values(mcur.skip(0)));
    }
    while k < ops.len()
        invariant
            k <= ops@.len(),
            cur_idx <= cur_len,
            new_idx <= new_len,
            cur_len == current@.len(),
            new_len == new@.len(),
            mcur == models(current@),
            full == replay(ops@, mcur, new@, i),
            replays(
                ops@.skip(k as int),
                values(mcur.skip(cur_idx as int)),
                new@.skip(new_idx as int),
            ),
            models(next@) + replay(
                ops@.skip(k as int),
                mcur.skip(cur_idx as int),
                new@.skip(new_idx as int),
                i,
            ) == full,
        decreases ops@.len() - k,
    {
        let ghost s_ops = ops@.skip(k as int);
        let ghost s_cur = mcur.skip(cur_idx as int);
        let ghost s_new = new@.skip(new_idx as int);
        proof {
            assert(s_ops[0] == ops@[k as int]);
            assert(s_ops.skip(1) =~= ops@.skip(k + 1));
            assert(values(s_cur).len() == s_cur.len());
        }
        let op = ops[k];
        match op {
            EditOp::Both => {
                proof {
                    assert(s_cur.len() > 0 && s_new.len() > 0);
                    assert(cur_idx < current@.len() && new_idx < new@.len());
                    assert(s_cur[0] == mcur[cur_idx as int]);
                    assert(mcur[cur_idx as int] == current@[cur_idx as int]@);
                    assert(mcur.skip(cur_idx as int).skip(1) =~= mcur.skip(cur_idx + 1));
                    assert(new@.skip(new_idx as int).skip(1) =~= new@.skip(new_idx + 1));
                    assert(values(s_cur).skip(1) =~= values(mcur.skip(cur_idx + 1)));
                }
                let c = &current[cur_idx];
                let tagged_chunk = Chunk { value: c.value, appears_in: c.appears_in.appended(i) };
                proof {
                    let head = ChunkModel {
                        value: s_cur[0].value,
                        sources: s_cur[0].sources.push(i),
                    };
                    assert(tagged_chunk@ == head);
                    assert(replay(s_ops, s_cur, s_new, i) == seq![head] + replay(
                        s_ops.skip(1),
                        s_cur.skip(1),
                        s_new.skip(1),
                        i,
                    ));
                    assert(models(next@.push(tagged_chunk)) =~= models(next@).push(head));
                    assert(models(next@).push(head) + replay(
                        ops@.skip(k + 1),
                        mcur.skip(cur_idx + 1),
                        new@.skip(new_idx + 1),
                        i,
                    ) =~= models(next@) + replay(s_ops, s_cur, s_new, i));
                }
                next.push(tagged_chunk);
                cur_idx = cur_idx + 1;
                new_idx = new_idx + 1;
            }
            EditOp::Left => {
                proof {
                    assert(s_cur.len() > 0);
                    assert(cur_idx < current@.len());
                    assert(s_cur[0] == mcur[cur_idx as int]);
                    assert(mcur[cur_idx as int] == current@[cur_idx as int]@);
                    assert(mcur.skip(cur_idx as int).skip(1) =~= mcur.skip(cur_idx + 1));
                    assert(values(s_cur).skip(1) =~= values(mcur.skip(cur_idx + 1)));
                }
                let c = &current[cur_idx];
                let kept_chunk = Chunk { value: c.value, appears_in: c.appears_in.duplicate() };
                proof {
                    assert(kept_chunk@ == s_cur[0]);
                    assert(replay(s_ops, s_cur, s_new, i) == seq![s_cur[0]] + replay(
                        s_ops.skip(1),
                        s_cur.skip(1),
                        s_new,
                        i,
                    ));
                    assert(models(next@.push(kept_chunk)) =~= models(next@).push(s_cur[0]));
                    assert(models(next@).push(s_cur[0]) + replay(
                        ops@.skip(k + 1),
                        mcur.skip(cur_idx + 1),
                        new@.skip(new_idx as int),
                        i,
                    ) =~= models(next@) + replay(s_ops, s_cur, s_new, i));
                }
                next.push(kept_chunk);
                cur_idx = cur_idx + 1;
            }
            EditOp::Right => {
                proof {
                    assert(s_new.len() > 0);
                    assert(new_idx < new@.len());
                    assert(s_new[0] == new@[new_idx as int]);
                    assert(new@.skip(new_idx as int).skip(1) =~= new@.skip(new_idx + 1));
                }
                let fresh_chunk = Chunk { value: new[new_idx], appears_in: ProvenanceSet::new(i) };
                proof {
                    let head = ChunkModel { value: s_new[0], sources: seq![i] };
                    assert(fresh_chunk@ == head);
                    assert(replay(s_ops, s_cur, s_new, i) == seq![head] + replay(
                        s_ops.skip(1),
                        s_cur,
                        s_new.skip(1),
                        i,
                    ));
                    assert(models(next@.push(fresh_chunk)) =~= models(next@).push(head));
                    assert(models(next@).push(head) + replay(
                        ops@.skip(k + 1),
                        mcur.skip(cur_idx as int),
                        new@.skip(new_idx + 1),
                        i,
                    ) =~= models(next@) + replay(s_ops, s_cur, s_new, i));
                }
                next.push(fresh_chunk);
                new_idx = new_idx + 1;
            }
        }
        k = k + 1;
    }
    proof {
        assert(ops@.skip(ops@.len() as int) =~= Seq::<EditOp>::empty());
        assert(models(next@) + replay(
            ops@.skip(ops@.len() as int),
            mcur.skip(cur_idx as int),
            new@.skip(new_idx as int),
            i,
        ) =~= models(next@));
    }
    next
}

/// One step of the fold: aligns the accumulator against source `i` and
/// replays the edit script.
fn fold_step(current: &Vec<Chunk>, new: &Vec<u64>, i: usize) -> (next: Vec<Chunk>)
    requires
        all_wf(models(current@), i as int),
    ensures
        restriction(models(next@), i) == new@,
        forall|j: usize| j != i ==> restriction(models(next@), j) == restriction(
            models(current@),
            j,
        ),
        all_wf(models(next@), i + 1),
        next@.len() >= current@.len(),
        next@.len() >= new@.len(),
        next@.len() <= current@.len() + new@.len(),
        next@.len() + lcs_len(values(models(current@)), new@) == current@.len() + new@.len(),
        values(models(current@)) == new@ ==> models(next@) == tag_all(models(current@), i),
{
    let vals = chunk_values(current);
    let ops = diff_slice(&vals, new);
    let next = apply_ops(&ops, current, new, i);
    proof {
        let mcur = models(current@);
        lemma_replay_len(ops@, mcur, new@, i);
        lemma_replays_counts(ops@, vals@, new@);
        assert(vals@.len() == mcur.len() && mcur.len() == current@.len());
        assert(next@.len() + lcs_len(values(mcur), new@) == current@.len() + new@.len());
        assert forall|k: int| 0 <= k < mcur.len() implies !(#[trigger] mcur[k].sources).contains(
            i,
        ) by {
            if mcur[k].sources.contains(i) {
                let a = choose|a: int|
                    0 <= a < mcur[k].sources.len() && mcur[k].sources[a] == i;
                assert(wf_sources(mcur[k].sources, i as int));
                assert(mcur[k].sources[a] < i);
            }
        }
        lemma_replay_restriction_new(ops@, mcur, new@, i);
        assert forall|j: usize| j != i implies restriction(models(next@), j) == restriction(
            mcur,
            j,
        ) by {
            lemma_replay_restriction_old(ops@, mcur, new@, i, j);
        }
        lemma_replay_wf(ops@, mcur, new@, i);
        if values(mcur) == new@ {
            lemma_equal_inputs_all_both(ops@, new@);
            lemma_replay_all_both(ops@, mcur, new@, i);
        }
    }
    next
}

/// The accumulator for the first source: its elements, each tagged with
/// provenance `{0}`.
fn init_accumulator(first: &Vec<u64>) -> (acc: Vec<Chunk>)
    ensures
        models(acc@) == tagged(first@, seq![0usize]),
{
    let mut acc: Vec<Chunk> = Vec::new();
    let mut k: usize = 0;
    while k < first.len()
        invariant
            k <= first@.len(),
            acc@.len() == k,
            forall|a: int|
                0 <= a < k ==> (#[trigger] acc@[a])@ == (ChunkModel {
                    value: first@[a],
                    sources: seq![0usize],
                }),
        decreases first@.len() - k,
    {
        acc.push(Chunk { value: first[k], appears_in: ProvenanceSet::new(0) });
        k = k + 1;
    }
    proof {
        assert(models(acc@) =~= tagged(first@, seq![0usize]));
    }
    acc
}

/// Merges the given sequences into one provenance-tagged sequence, folding
/// them in index order.
///
/// The output restricted to any source index `i` reads off source `i`
/// exactly; every chunk is tagged with a non-empty, strictly increasing set
/// of source indices; the output is never shorter than any one source and
/// never longer than all of them together; and folding the same sequence
/// with itself deduplicates it completely, every element tagged with every
/// source.
///
/// The fold is deliberately left to right: feeding the same sources in
/// another order may produce a different (but equally valid) output.
pub fn multidiff(to_diff: &Vec<Vec<u64>>) -> (out: Vec<Chunk>)
    ensures
        valid_merge(to_diff@, models(out@)),
{
    let k_total = to_diff.len();
    if k_total == 0 {
        let out: Vec<Chunk> = Vec::new();
        proof {
            assert(models(out@) =~= Seq::<ChunkModel>::empty());
        }
        return out;
    }
    let mut current = init_accumulator(&to_diff[0]);
    proof {
        lemma_restriction_tagged(to_diff@[0]@, seq![0usize], 0);
        assert(seq![0usize].contains(0)) by {
            assert(seq![0usize][0] == 0usize);
        }
        assert(all_wf(models(current@), 1)) by {
            assert forall|k: int| 0 <= k < models(current@).len() implies wf_sources(
                (#[trigger] models(current@)[k]).sources,
                1,
            ) by {
                assert(models(current@)[k].sources =~= seq![0usize]);
            }
        }
        assert(to_diff@.take(1).drop_last() =~= Seq::<Vec<u64>>::empty());
        assert(to_diff@.take(1).last() == to_diff@[0]);
        assert(full_provenance(1) =~= seq![0usize]);
        assert forall|j: usize| j < 1 implies restriction(models(current@), j) == (
        #[trigger] to_diff@[j as int])@ by {
            assert(j == 0);
        }
    }
    let mut i: usize = 1;
    while i < k_total
        invariant
            1 <= i <= k_total,
            k_total == to_diff@.len(),
            forall|j: usize|
                j < i ==> restriction(models(current@), j) == (#[trigger] to_diff@[j as int])@,
            all_wf(models(current@), i as int),
            current@.len() <= total_len(to_diff@.take(i as int)),
            forall|j: int| 0 <= j < i ==> current@.len() >= (#[trigger] to_diff@[j])@.len(),
            i == 1 ==> models(current@) == tagged(to_diff@[0]@, seq![0usize]),
            (k_total == 2 && i == 2) ==> current@.len() + lcs_len(to_diff@[0]@, to_diff@[1]@)
                == to_diff@[0]@.len() + to_diff@[1]@.len(),
            (forall|j: int|
                0 <= j < to_diff@.len() ==> (#[trigger] to_diff@[j])@ == to_diff@[0]@) ==> models(
                current@,
            ) == tagged(to_diff@[0]@, full_provenance(i as nat)),
        decreases k_total - i,
    {
        let next = fold_step(&current, &to_diff[i], i);
        proof {
            assert(to_diff@.take(i + 1).drop_last() =~= to_diff@.take(i as int));
            assert(to_diff@.take(i + 1).last() == to_diff@[i as int]);
            if i == 1 {
                let s0 = to_diff@[0]@;
                assert(values(models(current@)) =~= s0);
                assert(current@.len() == s0.len());
            }
            assert forall|j: usize| j < i + 1 implies restriction(models(next@), j) == (
            #[trigger] to_diff@[j as int])@ by {
                if j < i {
                    assert(restriction(models(next@), j) == restriction(models(current@), j));
                }
            }
            if forall|j: int|
                0 <= j < to_diff@.len() ==> (#[trigger] to_diff@[j])@ == to_diff@[0]@ {
                let s = to_diff@[0]@;
                assert(models(current@) == tagged(s, full_provenance(i as nat)));
                assert(values(models(current@)) =~= s);
                assert(to_diff@[i as int]@ == s);
                assert(models(next@) == tag_all(tagged(s, full_provenance(i as nat)), i));
                assert(tag_all(tagged(s, full_provenance(i as nat)), i) =~= tagged(
                    s,
                    full_provenance((i + 1) as nat),
                )) by {
                    assert(full_provenance(i as nat).push(i) =~= full_provenance((i + 1) as nat));
                }
            }
        }
        current = next;
        i = i + 1;
    }
    proof {
        assert(to_diff@.take(k_total as int) =~= to_diff@);
    }
    current
}

/// The values of the chunks whose provenance holds `i`, in order: the
/// executable counterpart of [`restriction`].
pub fn restrict(out: &Vec<Chunk>, i: usize) -> (r: Vec<u64>)
    ensures
        r@ == restriction(models(out@), i),
{
    let ghost full = models(out@);
    let mut r: Vec<u64> = Vec::new();
    let mut k: usize = 0;
    proof {
        assert(full.skip(0) =~= full);
        assert(r@ + restriction(full, i) =~= restriction(full, i));
    }
    while k < out.len()
        invariant
            k <= out@.len(),
            full == models(out@),
            r@ + restriction(full.skip(k as int), i) == restriction(full, i),
        decreases out@.len() - k,
    {
        let ghost s = full.skip(k as int);
        proof {
            assert(s[0] == full[k as int]);
            assert(full[k as int] == out@[k as int]@);
            assert(s.skip(1) =~= full.skip(k + 1));
        }
        let c = &out[k];
        if c.appears_in.contains(i) {
            proof {
                assert(restriction(s, i) == seq![s[0].value] + restriction(s.skip(1), i));
                assert(r@.push(c.value) + restriction(full.skip(k + 1), i) =~= r@ + restriction(
                    s,
                    i,
                ));
            }
            r.push(c.value);
        } else {
            proof {
                assert(restriction(s, i) == restriction(s.skip(1), i));
            }
        }
        k = k + 1;
    }
    proof {
        assert(full.skip(out@.len() as int) =~= Seq::<ChunkModel>::empty());
        assert(r@ + restriction(full.skip(out@.len() as int), i) =~= r@);
    }
    r
}

} // verus!
