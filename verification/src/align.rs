//! Pairwise alignment of two sequences by longest common subsequence.
//!
//! The alignment itself is computed by the `diff` crate; this module states
//! what the computed edit script guarantees and proves the consequences that
//! the fold engine relies on.

use vstd::prelude::*;

verus! {

/// One step of an edit script over two sequences, read left to right.
///
/// Each step consumes the next element of the left sequence, of the right
/// sequence, or of both at once.
#[derive(Clone, Copy, Debug)]
pub enum EditOp {
    /// The next element is present in both sequences.
    Both,
    /// The next element is present only in the left sequence.
    Left,
    /// The next element is present only in the right sequence.
    Right,
}

/// Says that replaying `ops` front to back consumes `left` and `right`
/// exactly: every element of both sequences is consumed in order, and each
/// `Both` step consumes one equal element from each side.
pub open spec fn replays(ops: Seq<EditOp>, left: Seq<u64>, right: Seq<u64>) -> bool
    decreases ops.len(),
{
    if ops.len() == 0 {
        left.len() == 0 && right.len() == 0
    } else {
        match ops[0] {
            EditOp::Both => left.len() > 0 && right.len() > 0 && left[0] == right[0]
                && replays(ops.skip(1), left.skip(1), right.skip(1)),
            EditOp::Left => left.len() > 0 && replays(ops.skip(1), left.skip(1), right),
            EditOp::Right => right.len() > 0 && replays(ops.skip(1), left, right.skip(1)),
        }
    }
}

/// The number of `Both` steps in `ops`.
pub open spec fn both_count(ops: Seq<EditOp>) -> nat
    decreases ops.len(),
{
    if ops.len() == 0 {
        0
    } else {
        (if ops[0] is Both { 1nat } else { 0nat }) + both_count(ops.skip(1))
    }
}

/// The number of `Left` steps in `ops`.
pub open spec fn left_count(ops: Seq<EditOp>) -> nat
    decreases ops.len(),
{
    if ops.len() == 0 {
        0
    } else {
        (if ops[0] is Left { 1nat } else { 0nat }) + left_count(ops.skip(1))
    }
}

/// The number of `Right` steps in `ops`.
pub open spec fn right_count(ops: Seq<EditOp>) -> nat
    decreases ops.len(),
{
    if ops.len() == 0 {
        0
    } else {
        (if ops[0] is Right { 1nat } else { 0nat }) + right_count(ops.skip(1))
    }
}

/// The length of a longest common subsequence of `left` and `right`.
///
/// When the heads are equal, matching them is always optimal, so the
/// definition commits to that match; otherwise one of the two heads is
/// skipped, whichever leads to the longer result.
pub open spec fn lcs_len(left: Seq<u64>, right: Seq<u64>) -> nat
    decreases left.len() + right.len(),
{
    if left.len() == 0 || right.len() == 0 {
        0
    } else if left[0] == right[0] {
        1 + lcs_len(left.skip(1), right.skip(1))
    } else {
        let a = lcs_len(left.skip(1), right);
        let b = lcs_len(left, right.skip(1));
        if a >= b {
            a
        } else {
            b
        }
    }
}

/// Relies on diff::slice: it computes the classic dynamic-programming table
/// for the longest common subsequence of the two slices (after splitting off
/// the common prefix and suffix, which preserves that length) and walks it
/// back, emitting one `Left`, `Right` or `Both` item per consumed element.
/// The walk consumes both slices completely and in order, a `Both` item is
/// only ever emitted for a pair of equal elements, and the number of `Both`
/// items equals the table's optimum, the length of a longest common
/// subsequence.
#[verifier::external_body]
pub(crate) fn diff_slice(left: &Vec<u64>, right: &Vec<u64>) -> (ops: Vec<EditOp>)
    ensures
        replays(ops@, left@, right@),
        both_count(ops@) == lcs_len(left@, right@),
{
    diff::slice(left, right)
        .into_iter()
        .map(|op| match op {
            diff::Result::Left(_) => EditOp::Left,
            diff::Result::Both(_, _) => EditOp::Both,
            diff::Result::Right(_) => EditOp::Right,
        })
        .collect()
}

/// A sequence aligned against itself has itself as a longest common
/// subsequence.
pub proof fn lemma_lcs_len_self(s: Seq<u64>)
    ensures
        lcs_len(s, s) == s.len(),
    decreases s.len(),
{
    if s.len() > 0 {
        lemma_lcs_len_self(s.skip(1));
    }
}

/// Replaying an edit script consumes each side completely, so the step
/// counts are fixed by the two lengths.
pub proof fn lemma_replays_counts(ops: Seq<EditOp>, left: Seq<u64>, right: Seq<u64>)
    requires
        replays(ops, left, right),
    ensures
        both_count(ops) + left_count(ops) == left.len(),
        both_count(ops) + right_count(ops) == right.len(),
        ops.len() == both_count(ops) + left_count(ops) + right_count(ops),
    decreases ops.len(),
{
    if ops.len() > 0 {
        match ops[0] {
            EditOp::Both => {
                lemma_replays_counts(ops.skip(1), left.skip(1), right.skip(1));
            }
            EditOp::Left => {
                lemma_replays_counts(ops.skip(1), left.skip(1), right);
            }
            EditOp::Right => {
                lemma_replays_counts(ops.skip(1), left, right.skip(1));
            }
        }
    }
}

/// A script without `Left` and without `Right` steps is all `Both` steps.
proof fn lemma_no_sides_all_both(ops: Seq<EditOp>)
    requires
        left_count(ops) == 0,
        right_count(ops) == 0,
    ensures
        forall|k: int| 0 <= k < ops.len() ==> ops[k] is Both,
    decreases ops.len(),
{
    if ops.len() > 0 {
        lemma_no_sides_all_both(ops.skip(1));
        assert forall|k: int| 0 <= k < ops.len() implies ops[k] is Both by {
            if k > 0 {
                assert(ops.skip(1)[k - 1] == ops[k]);
            }
        }
    }
}

/// An optimal edit script between two equal sequences consists of `Both`
/// steps only.
pub proof fn lemma_equal_inputs_all_both(ops: Seq<EditOp>, s: Seq<u64>)
    requires
        replays(ops, s, s),
        both_count(ops) == lcs_len(s, s),
    ensures
        forall|k: int| 0 <= k < ops.len() ==> ops[k] is Both,
{
    lemma_lcs_len_self(s);
    lemma_replays_counts(ops, s, s);
    lemma_no_sides_all_both(ops);
}

} // verus!
