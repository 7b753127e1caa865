//! The unit-cost edit distance as a mathematical function, and its laws:
//! it is zero exactly on equal sequences, it is symmetric, and no valid edit
//! script can beat it.

use vstd::prelude::*;
use crate::alignments::Op;
use crate::alignments::dist_of;
use crate::alignments::is_aligned;

verus! {

/// The smallest of three naturals.
pub open spec fn min3(a: nat, b: nat, c: nat) -> nat {
    if a <= b && a <= c {
        a
    } else if b <= c {
        b
    } else {
        c
    }
}

/// The unit-cost edit distance: the least number of substitutions,
/// insertions and deletions that turn `xs` into `ys`.
pub open spec fn edit_dist_spec(xs: Seq<u8>, ys: Seq<u8>) -> nat
    decreases xs.len() + ys.len(),
{
    if xs.len() == 0 {
        ys.len()
    } else if ys.len() == 0 {
        xs.len()
    } else {
        min3(
            edit_dist_spec(xs.drop_last(), ys.drop_last()) + (if xs.last() == ys.last() {
                0nat
            } else {
                1nat
            }),
            edit_dist_spec(xs, ys.drop_last()) + 1,
            edit_dist_spec(xs.drop_last(), ys) + 1,
        )
    }
}

/// Law: the distance never exceeds the summed lengths.
pub proof fn lemma_edit_dist_upper(xs: Seq<u8>, ys: Seq<u8>)
    ensures
        edit_dist_spec(xs, ys) <= xs.len() + ys.len(),
    decreases xs.len() + ys.len(),
{
    if xs.len() > 0 && ys.len() > 0 {
        lemma_edit_dist_upper(xs, ys.drop_last());
    }
}

/// Law: a sequence is at distance zero from itself.
pub proof fn lemma_edit_dist_self(s: Seq<u8>)
    ensures
        edit_dist_spec(s, s) == 0,
    decreases s.len(),
{
    if s.len() > 0 {
        lemma_edit_dist_self(s.drop_last());
    }
}

/// Law: the distance is symmetric in its two sequences.
pub proof fn lemma_edit_dist_symm(xs: Seq<u8>, ys: Seq<u8>)
    ensures
        edit_dist_spec(xs, ys) == edit_dist_spec(ys, xs),
    decreases xs.len() + ys.len(),
{
    if xs.len() > 0 && ys.len() > 0 {
        lemma_edit_dist_symm(xs.drop_last(), ys.drop_last());
        lemma_edit_dist_symm(xs, ys.drop_last());
        lemma_edit_dist_symm(xs.drop_last(), ys);
    }
}

/// Aligning one more leading pair costs at most one substitution.
pub proof fn lemma_ed_prepend_pair(xs: Seq<u8>, ys: Seq<u8>)
    requires
        xs.len() >= 1,
        ys.len() >= 1,
    ensures
        edit_dist_spec(xs, ys) <= edit_dist_spec(xs.drop_first(), ys.drop_first()) + (if xs[0]
            == ys[0] {
            0nat
        } else {
            1nat
        }),
    decreases xs.len() + ys.len(),
{
    let c: nat = if xs[0] == ys[0] {
        0nat
    } else {
        1nat
    };
    if xs.len() == 1 && ys.len() == 1 {
        assert(xs.drop_last() =~= Seq::<u8>::empty());
        assert(ys.drop_last() =~= Seq::<u8>::empty());
        assert(xs.drop_first() =~= Seq::<u8>::empty());
        assert(ys.drop_first() =~= Seq::<u8>::empty());
    } else if xs.len() == 1 {
        // only the insertion branch keeps the pair ahead
        assert(ys.drop_last().len() >= 1);
        assert(ys.drop_last()[0] == ys[0]);
        lemma_ed_prepend_pair(xs, ys.drop_last());
        assert(ys.drop_last().drop_first() =~= ys.drop_first().drop_last());
        lemma_ed_prepend_y(xs.drop_first(), ys.drop_first());
        assert(edit_dist_spec(xs, ys) <= edit_dist_spec(xs, ys.drop_last()) + 1);
    } else if ys.len() == 1 {
        assert(xs.drop_last().len() >= 1);
        assert(xs.drop_last()[0] == xs[0]);
        lemma_ed_prepend_pair(xs.drop_last(), ys);
        assert(xs.drop_last().drop_first() =~= xs.drop_first().drop_last());
        lemma_ed_prepend_x(xs.drop_first(), ys.drop_first());
        assert(edit_dist_spec(xs, ys) <= edit_dist_spec(xs.drop_last(), ys) + 1);
    } else {
        assert(xs.drop_last()[0] == xs[0]);
        assert(ys.drop_last()[0] == ys[0]);
        assert(xs.drop_last().drop_first() =~= xs.drop_first().drop_last());
        assert(ys.drop_last().drop_first() =~= ys.drop_first().drop_last());
        assert(xs.drop_first().last() == xs.last());
        assert(ys.drop_first().last() == ys.last());
        lemma_ed_prepend_pair(xs.drop_last(), ys.drop_last());
        lemma_ed_prepend_pair(xs, ys.drop_last());
        lemma_ed_prepend_pair(xs.drop_last(), ys);
        // each branch of the unfolding of the right side is matched by the
        // corresponding branch of the left side
        assert(edit_dist_spec(xs, ys) <= edit_dist_spec(xs.drop_last(), ys.drop_last()) + (if xs.last()
            == ys.last() {
            0nat
        } else {
            1nat
        }));
        assert(edit_dist_spec(xs, ys) <= edit_dist_spec(xs, ys.drop_last()) + 1);
        assert(edit_dist_spec(xs, ys) <= edit_dist_spec(xs.drop_last(), ys) + 1);
    }
}

/// Deleting one more leading symbol costs at most one.
pub proof fn lemma_ed_prepend_x(xs: Seq<u8>, ys: Seq<u8>)
    requires
        xs.len() >= 1,
    ensures
        edit_dist_spec(xs, ys) <= edit_dist_spec(xs.drop_first(), ys) + 1,
    decreases xs.len() + ys.len(),
{
    if ys.len() == 0 {
        assert(xs.drop_first().len() == xs.len() - 1);
    } else if xs.len() == 1 {
        assert(xs.drop_first() =~= Seq::<u8>::empty());
        lemma_ed_prepend_x(xs, ys.drop_last());
        assert(edit_dist_spec(xs, ys) <= edit_dist_spec(xs, ys.drop_last()) + 1);
    } else {
        assert(xs.drop_last()[0] == xs[0]);
        assert(xs.drop_last().drop_first() =~= xs.drop_first().drop_last());
        assert(xs.drop_first().last() == xs.last());
        lemma_ed_prepend_x(xs.drop_last(), ys.drop_last());
        lemma_ed_prepend_x(xs, ys.drop_last());
        lemma_ed_prepend_x(xs.drop_last(), ys);
        assert(edit_dist_spec(xs, ys) <= edit_dist_spec(xs.drop_last(), ys.drop_last()) + (if xs.last()
            == ys.last() {
            0nat
        } else {
            1nat
        }));
        assert(edit_dist_spec(xs, ys) <= edit_dist_spec(xs, ys.drop_last()) + 1);
        assert(edit_dist_spec(xs, ys) <= edit_dist_spec(xs.drop_last(), ys) + 1);
    }
}

/// Inserting one more leading symbol costs at most one.
pub proof fn lemma_ed_prepend_y(xs: Seq<u8>, ys: Seq<u8>)
    requires
        ys.len() >= 1,
    ensures
        edit_dist_spec(xs, ys) <= edit_dist_spec(xs, ys.drop_first()) + 1,
    decreases xs.len() + ys.len(),
{
    if xs.len() == 0 {
        assert(ys.drop_first().len() == ys.len() - 1);
    } else if ys.len() == 1 {
        assert(ys.drop_first() =~= Seq::<u8>::empty());
        lemma_ed_prepend_y(xs.drop_last(), ys);
        assert(edit_dist_spec(xs, ys) <= edit_dist_spec(xs.drop_last(), ys) + 1);
    } else {
        assert(ys.drop_last()[0] == ys[0]);
        assert(ys.drop_last().drop_first() =~= ys.drop_first().drop_last());
        assert(ys.drop_first().last() == ys.last());
        lemma_ed_prepend_y(xs.drop_last(), ys.drop_last());
        lemma_ed_prepend_y(xs, ys.drop_last());
        lemma_ed_prepend_y(xs.drop_last(), ys);
        assert(edit_dist_spec(xs, ys) <= edit_dist_spec(xs.drop_last(), ys.drop_last()) + (if xs.last()
            == ys.last() {
            0nat
        } else {
            1nat
        }));
        assert(edit_dist_spec(xs, ys) <= edit_dist_spec(xs, ys.drop_last()) + 1);
        assert(edit_dist_spec(xs, ys) <= edit_dist_spec(xs.drop_last(), ys) + 1);
    }
}

/// Law: no valid edit script witnesses fewer edits than the edit distance,
/// so a solver that returns a valid script of `d` edits with
/// `d == edit_dist_spec(xs, ys)` has found an optimal script.
pub proof fn lemma_aligned_cost_ge(ops: Seq<Op>, xs: Seq<u8>, ys: Seq<u8>)
    requires
        is_aligned(ops, xs, ys),
    ensures
        edit_dist_spec(xs, ys) <= dist_of(ops),
    decreases ops.len(),
{
    if ops.len() == 0 {
        assert(edit_dist_spec(xs, ys) == 0);
    } else {
        match ops[0] {
            Op::Match => {
                lemma_aligned_cost_ge(ops.drop_first(), xs.drop_first(), ys.drop_first());
                lemma_ed_prepend_pair(xs, ys);
            },
            Op::Mismatch => {
                lemma_aligned_cost_ge(ops.drop_first(), xs.drop_first(), ys.drop_first());
                lemma_ed_prepend_pair(xs, ys);
            },
            Op::Ins => {
                lemma_aligned_cost_ge(ops.drop_first(), xs, ys.drop_first());
                lemma_ed_prepend_y(xs, ys);
            },
            Op::Del => {
                lemma_aligned_cost_ge(ops.drop_first(), xs.drop_first(), ys);
                lemma_ed_prepend_x(xs, ys);
            },
        }
    }
}

/// Law: a solver that returns a valid script witnessing the edit distance
/// yields, on a sequence aligned against itself, distance zero and the
/// all-`Match` script.
pub proof fn lemma_self_alignment(ops: Seq<Op>, s: Seq<u8>)
    requires
        is_aligned(ops, s, s),
        dist_of(ops) == edit_dist_spec(s, s),
    ensures
        dist_of(ops) == 0,
        ops.len() == s.len(),
        forall|i: int| 0 <= i < ops.len() ==> ops[i] == Op::Match,
{
    lemma_edit_dist_self(s);
    crate::alignments::lemma_zero_dist_all_match(ops, s, s);
}

} // verus!
