//! The alignment model: edit operations, edit scripts, their statistics,
//! their textual format, and the laws that relate them.

use vstd::prelude::*;
use vstd::string::StrSliceExecFns;
use vstd::string::StringExecFns;

verus! {

/// One step of an edit script.  `Ins` consumes one symbol of the second
/// sequence only, `Del` one symbol of the first sequence only; `Match` and
/// `Mismatch` consume one symbol of each.
#[derive(Debug, Clone, Copy, PartialEq, Eq, Structural)]
pub enum Op {
    Match,
    Mismatch,
    Ins,
    Del,
}

/// The character that stands for an operation in the textual format.
pub open spec fn op_char(op: Op) -> char {
    match op {
        Op::Match => '=',
        Op::Mismatch => 'X',
        Op::Ins => 'I',
        Op::Del => 'D',
    }
}

/// The operation a character stands for, if any.
pub open spec fn char_op(c: char) -> Option<Op> {
    if c == '=' {
        Some(Op::Match)
    } else if c == 'X' {
        Some(Op::Mismatch)
    } else if c == 'I' {
        Some(Op::Ins)
    } else if c == 'D' {
        Some(Op::Del)
    } else {
        None
    }
}

/// The textual form of an edit script.
pub open spec fn ops_string(ops: Seq<Op>) -> Seq<char> {
    ops.map_values(|op: Op| op_char(op))
}

/// The distance an edit script witnesses: the number of non-`Match` steps.
pub open spec fn dist_of(ops: Seq<Op>) -> nat
    decreases ops.len(),
{
    if ops.len() == 0 {
        0
    } else {
        (if ops[0] != Op::Match {
            1nat
        } else {
            0nat
        }) + dist_of(ops.drop_first())
    }
}

/// The number of gap runs in `ops`, scanning left to right with `prev` the
/// operation immediately before the scan: a run opens at every `Del` not
/// preceded by a `Del` and at every `Ins` not preceded by an `Ins`.
pub open spec fn gap_runs_from(ops: Seq<Op>, prev: Option<Op>) -> nat
    decreases ops.len(),
{
    if ops.len() == 0 {
        0
    } else {
        (if ops[0] == Op::Del && prev != Some(Op::Del) {
            1nat
        } else {
            0nat
        }) + (if ops[0] == Op::Ins && prev != Some(Op::Ins) {
            1nat
        } else {
            0nat
        }) + gap_runs_from(ops.drop_first(), Some(ops[0]))
    }
}

/// The number of maximal runs of `Ins` plus the number of maximal runs of
/// `Del` in an edit script.
pub open spec fn gap_runs(ops: Seq<Op>) -> nat {
    gap_runs_from(ops, None)
}

/// How many symbols of the first sequence an edit script consumes.
pub open spec fn xlen(ops: Seq<Op>) -> nat
    decreases ops.len(),
{
    if ops.len() == 0 {
        0
    } else {
        (if ops[0] != Op::Ins {
            1nat
        } else {
            0nat
        }) + xlen(ops.drop_first())
    }
}

/// How many symbols of the second sequence an edit script consumes.
pub open spec fn ylen(ops: Seq<Op>) -> nat
    decreases ops.len(),
{
    if ops.len() == 0 {
        0
    } else {
        (if ops[0] != Op::Del {
            1nat
        } else {
            0nat
        }) + ylen(ops.drop_first())
    }
}

/// Replaying `ops` consumes `xs` and `ys` exactly, in order, and every
/// `Match` (`Mismatch`) step pairs equal (unequal) symbols.
pub open spec fn is_aligned(ops: Seq<Op>, xs: Seq<u8>, ys: Seq<u8>) -> bool
    decreases ops.len(),
{
    if ops.len() == 0 {
        xs.len() == 0 && ys.len() == 0
    } else {
        match ops[0] {
            Op::Match => xs.len() > 0 && ys.len() > 0 && xs[0] == ys[0] && is_aligned(
                ops.drop_first(),
                xs.drop_first(),
                ys.drop_first(),
            ),
            Op::Mismatch => xs.len() > 0 && ys.len() > 0 && xs[0] != ys[0] && is_aligned(
                ops.drop_first(),
                xs.drop_first(),
                ys.drop_first(),
            ),
            Op::Ins => ys.len() > 0 && is_aligned(ops.drop_first(), xs, ys.drop_first()),
            Op::Del => xs.len() > 0 && is_aligned(ops.drop_first(), xs.drop_first(), ys),
        }
    }
}

impl Op {
    /// The character this operation maps to in the textual format.
    pub fn to_char(self) -> (c: char)
        ensures
            c == op_char(self),
    {
        match self {
            Op::Match => '=',
            Op::Mismatch => 'X',
            Op::Ins => 'I',
            Op::Del => 'D',
        }
    }

    /// The operation a character maps to, or `None` for a character outside
    /// the alphabet.
    pub fn from_char(c: char) -> (r: Option<Op>)
        ensures
            r == char_op(c),
    {
        if c == '=' {
            Some(Op::Match)
        } else if c == 'X' {
            Some(Op::Mismatch)
        } else if c == 'I' {
            Some(Op::Ins)
        } else if c == 'D' {
            Some(Op::Del)
        } else {
            None
        }
    }
}

/// How many gap runs `op` opens when the operation before it is `prev`.
pub open spec fn gap_open_count(op: Op, prev: Option<Op>) -> nat {
    (if op == Op::Del && prev != Some(Op::Del) {
        1nat
    } else {
        0nat
    }) + (if op == Op::Ins && prev != Some(Op::Ins) {
        1nat
    } else {
        0nat
    })
}

/// Appending one operation adds one to the distance exactly when it is not a
/// `Match`.
pub proof fn lemma_dist_of_push(ops: Seq<Op>, op: Op)
    ensures
        dist_of(ops.push(op)) == dist_of(ops) + (if op != Op::Match {
            1nat
        } else {
            0nat
        }),
    decreases ops.len(),
{
    assert(ops.push(op).len() == ops.len() + 1);
    if ops.len() == 0 {
        assert(ops.push(op)[0] == op);
        assert(ops.push(op).drop_first() =~= Seq::<Op>::empty());
        assert(dist_of(Seq::<Op>::empty()) == 0);
        assert(dist_of(ops.push(op)) == (if op != Op::Match {
            1nat
        } else {
            0nat
        }) + dist_of(ops.push(op).drop_first()));
    } else {
        assert(ops.push(op).drop_first() =~= ops.drop_first().push(op));
        assert(ops.push(op)[0] == ops[0]);
        lemma_dist_of_push(ops.drop_first(), op);
        assert(dist_of(ops.push(op)) == (if ops[0] != Op::Match {
            1nat
        } else {
            0nat
        }) + dist_of(ops.drop_first().push(op)));
        assert(dist_of(ops) == (if ops[0] != Op::Match {
            1nat
        } else {
            0nat
        }) + dist_of(ops.drop_first()));
    }
}

/// Appending one operation adds to the gap-run count exactly what
/// `gap_open_count` says, judged against the last operation so far.
pub proof fn lemma_gap_runs_push(ops: Seq<Op>, prev: Option<Op>, op: Op)
    ensures
        gap_runs_from(ops.push(op), prev) == gap_runs_from(ops, prev) + gap_open_count(
            op,
            if ops.len() == 0 {
                prev
            } else {
                Some(ops.last())
            },
        ),
    decreases ops.len(),
{
    assert(ops.push(op).len() == ops.len() + 1);
    if ops.len() == 0 {
        assert(ops.push(op)[0] == op);
        assert(ops.push(op).drop_first() =~= Seq::<Op>::empty());
        assert(gap_runs_from(Seq::<Op>::empty(), Some(op)) == 0);
        assert(gap_runs_from(ops.push(op), prev) == gap_open_count(op, prev) + gap_runs_from(
            ops.push(op).drop_first(),
            Some(op),
        ));
    } else {
        assert(ops.push(op).drop_first() =~= ops.drop_first().push(op));
        assert(ops.push(op)[0] == ops[0]);
        lemma_gap_runs_push(ops.drop_first(), Some(ops[0]), op);
        if ops.len() == 1 {
            assert(ops.last() == ops[0]);
        } else {
            assert(ops.drop_first().last() == ops.last());
        }
        assert(gap_runs_from(ops.push(op), prev) == gap_open_count(ops[0], prev) + gap_runs_from(
            ops.drop_first().push(op),
            Some(ops[0]),
        ));
        assert(gap_runs_from(ops, prev) == gap_open_count(ops[0], prev) + gap_runs_from(
            ops.drop_first(),
            Some(ops[0]),
        ));
    }
}

/// The mirror of an operation: insertions and deletions swap roles when the
/// two sequences swap.
pub open spec fn swap_op(op: Op) -> Op {
    match op {
        Op::Match => Op::Match,
        Op::Mismatch => Op::Mismatch,
        Op::Ins => Op::Del,
        Op::Del => Op::Ins,
    }
}

/// The mirror of a whole edit script.
pub open spec fn swap_ops(ops: Seq<Op>) -> Seq<Op> {
    ops.map_values(|op: Op| swap_op(op))
}

/// The mirror of an optional operation.
pub open spec fn swap_opt(prev: Option<Op>) -> Option<Op> {
    match prev {
        None => None,
        Some(op) => Some(swap_op(op)),
    }
}

/// Law: parsing then serializing returns any string over the alphabet
/// unchanged.
pub proof fn lemma_parse_then_serialize(s: Seq<char>, ops: Seq<Op>)
    requires
        ops.len() == s.len(),
        forall|i: int| 0 <= i < s.len() ==> char_op(s[i]) == Some(ops[i]),
    ensures
        ops_string(ops) == s,
{
    assert forall|i: int| 0 <= i < s.len() implies ops_string(ops)[i] == s[i] by {
        assert(char_op(s[i]) == Some(ops[i]));
    }
    assert(ops_string(ops) =~= s);
}

/// Law: serializing then parsing recovers every operation of any script.
pub proof fn lemma_serialize_then_parse(ops: Seq<Op>)
    ensures
        forall|i: int| 0 <= i < ops.len() ==> char_op(ops_string(ops)[i]) == Some(ops[i]),
{
    assert forall|i: int| 0 <= i < ops.len() implies char_op(ops_string(ops)[i]) == Some(
        ops[i],
    ) by {
        assert(ops_string(ops)[i] == op_char(ops[i]));
    }
}

/// Law: a valid script consumes each sequence exactly.
pub proof fn lemma_aligned_lengths(ops: Seq<Op>, xs: Seq<u8>, ys: Seq<u8>)
    requires
        is_aligned(ops, xs, ys),
    ensures
        xlen(ops) == xs.len(),
        ylen(ops) == ys.len(),
    decreases ops.len(),
{
    if ops.len() > 0 {
        match ops[0] {
            Op::Match => lemma_aligned_lengths(ops.drop_first(), xs.drop_first(), ys.drop_first()),
            Op::Mismatch => lemma_aligned_lengths(
                ops.drop_first(),
                xs.drop_first(),
                ys.drop_first(),
            ),
            Op::Ins => lemma_aligned_lengths(ops.drop_first(), xs, ys.drop_first()),
            Op::Del => lemma_aligned_lengths(ops.drop_first(), xs.drop_first(), ys),
        }
    }
}

/// Law: the mirror of a valid script of `(xs, ys)` is a valid script of
/// `(ys, xs)` and witnesses the same distance.
pub proof fn lemma_swap_aligned(ops: Seq<Op>, xs: Seq<u8>, ys: Seq<u8>)
    requires
        is_aligned(ops, xs, ys),
    ensures
        is_aligned(swap_ops(ops), ys, xs),
        dist_of(swap_ops(ops)) == dist_of(ops),
    decreases ops.len(),
{
    assert(swap_ops(ops).len() == ops.len());
    if ops.len() > 0 {
        assert(swap_ops(ops)[0] == swap_op(ops[0]));
        assert(swap_ops(ops).drop_first() =~= swap_ops(ops.drop_first()));
        match ops[0] {
            Op::Match => lemma_swap_aligned(ops.drop_first(), xs.drop_first(), ys.drop_first()),
            Op::Mismatch => lemma_swap_aligned(ops.drop_first(), xs.drop_first(), ys.drop_first()),
            Op::Ins => lemma_swap_aligned(ops.drop_first(), xs, ys.drop_first()),
            Op::Del => lemma_swap_aligned(ops.drop_first(), xs.drop_first(), ys),
        }
    }
}

/// Law: mirroring a script also keeps its number of gap runs, whatever
/// operation precedes the scan.
pub proof fn lemma_swap_gap_runs(ops: Seq<Op>, prev: Option<Op>)
    ensures
        gap_runs_from(swap_ops(ops), swap_opt(prev)) == gap_runs_from(ops, prev),
    decreases ops.len(),
{
    assert(swap_ops(ops).len() == ops.len());
    if ops.len() > 0 {
        assert(swap_ops(ops)[0] == swap_op(ops[0]));
        assert(swap_ops(ops).drop_first() =~= swap_ops(ops.drop_first()));
        lemma_swap_gap_runs(ops.drop_first(), Some(ops[0]));
    }
}

/// Law: a valid script of distance zero is all `Match`, and the two
/// sequences are equal.
pub proof fn lemma_zero_dist_all_match(ops: Seq<Op>, xs: Seq<u8>, ys: Seq<u8>)
    requires
        is_aligned(ops, xs, ys),
        dist_of(ops) == 0,
    ensures
        xs == ys,
        ops.len() == xs.len(),
        forall|i: int| 0 <= i < ops.len() ==> ops[i] == Op::Match,
    decreases ops.len(),
{
    if ops.len() == 0 {
        assert(xs =~= ys);
    } else {
        assert(ops[0] == Op::Match);
        lemma_zero_dist_all_match(ops.drop_first(), xs.drop_first(), ys.drop_first());
        assert(xs.len() == ys.len());
        assert forall|i: int| 0 <= i < xs.len() implies xs[i] == ys[i] by {
            if i > 0 {
                assert(xs.drop_first()[i - 1] == xs[i]);
                assert(ys.drop_first()[i - 1] == ys[i]);
            }
        }
        assert(xs =~= ys);
        assert forall|i: int| 0 <= i < ops.len() implies ops[i] == Op::Match by {
            if i > 0 {
                assert(ops.drop_first()[i - 1] == ops[i]);
            }
        }
    }
}

/// Law: the all-`Match` script of the right length is a valid script of any
/// sequence against itself, and witnesses distance zero.
pub proof fn lemma_self_all_match(s: Seq<u8>)
    ensures
        is_aligned(Seq::new(s.len(), |i: int| Op::Match), s, s),
        dist_of(Seq::new(s.len(), |i: int| Op::Match)) == 0,
    decreases s.len(),
{
    let ops = Seq::new(s.len(), |i: int| Op::Match);
    if s.len() > 0 {
        lemma_self_all_match(s.drop_first());
        assert(ops.drop_first() =~= Seq::new(s.drop_first().len(), |i: int| Op::Match));
    }
}

/// Law: against an empty second sequence only the all-deletion script is
/// valid, and it witnesses distance `|xs|`.
pub proof fn lemma_aligned_empty_y(ops: Seq<Op>, xs: Seq<u8>, ys: Seq<u8>)
    requires
        is_aligned(ops, xs, ys),
        ys.len() == 0,
    ensures
        ops.len() == xs.len(),
        forall|i: int| 0 <= i < ops.len() ==> ops[i] == Op::Del,
        dist_of(ops) == xs.len(),
    decreases ops.len(),
{
    if ops.len() > 0 {
        assert(ops[0] == Op::Del);
        lemma_aligned_empty_y(ops.drop_first(), xs.drop_first(), ys);
        assert forall|i: int| 0 <= i < ops.len() implies ops[i] == Op::Del by {
            if i > 0 {
                assert(ops.drop_first()[i - 1] == ops[i]);
            }
        }
    }
}

/// Law: against an empty first sequence only the all-insertion script is
/// valid, and it witnesses distance `|ys|`.
pub proof fn lemma_aligned_empty_x(ops: Seq<Op>, xs: Seq<u8>, ys: Seq<u8>)
    requires
        is_aligned(ops, xs, ys),
        xs.len() == 0,
    ensures
        ops.len() == ys.len(),
        forall|i: int| 0 <= i < ops.len() ==> ops[i] == Op::Ins,
        dist_of(ops) == ys.len(),
    decreases ops.len(),
{
    if ops.len() > 0 {
        assert(ops[0] == Op::Ins);
        lemma_aligned_empty_x(ops.drop_first(), xs, ys.drop_first());
        assert forall|i: int| 0 <= i < ops.len() implies ops[i] == Op::Ins by {
            if i > 0 {
                assert(ops.drop_first()[i - 1] == ops[i]);
            }
        }
    }
}

/// One traceback step: putting a legal operation in front of a valid script
/// of the shortened sequences gives a valid script, one non-`Match` longer
/// where the operation is an edit.
pub proof fn lemma_aligned_cons(op: Op, rest: Seq<Op>, xs: Seq<u8>, ys: Seq<u8>)
    requires
        match op {
            Op::Match => xs.len() > 0 && ys.len() > 0 && xs[0] == ys[0] && is_aligned(
                rest,
                xs.drop_first(),
                ys.drop_first(),
            ),
            Op::Mismatch => xs.len() > 0 && ys.len() > 0 && xs[0] != ys[0] && is_aligned(
                rest,
                xs.drop_first(),
                ys.drop_first(),
            ),
            Op::Ins => ys.len() > 0 && is_aligned(rest, xs, ys.drop_first()),
            Op::Del => xs.len() > 0 && is_aligned(rest, xs.drop_first(), ys),
        },
    ensures
        is_aligned(seq![op] + rest, xs, ys),
        dist_of(seq![op] + rest) == dist_of(rest) + (if op != Op::Match {
            1nat
        } else {
            0nat
        }),
{
    assert((seq![op] + rest)[0] == op);
    assert((seq![op] + rest).drop_first() =~= rest);
}

/// A valid script decomposes at its last operation: the step consumes the
/// final symbols and the rest is a valid script of the shortened sequences.
pub proof fn lemma_aligned_snoc(init: Seq<Op>, op: Op, xs: Seq<u8>, ys: Seq<u8>)
    requires
        is_aligned(init.push(op), xs, ys),
    ensures
        match op {
            Op::Match => xs.len() >= 1 && ys.len() >= 1 && xs.last() == ys.last() && is_aligned(
                init,
                xs.drop_last(),
                ys.drop_last(),
            ),
            Op::Mismatch => xs.len() >= 1 && ys.len() >= 1 && xs.last() != ys.last() && is_aligned(
                init,
                xs.drop_last(),
                ys.drop_last(),
            ),
            Op::Ins => ys.len() >= 1 && is_aligned(init, xs, ys.drop_last()),
            Op::Del => xs.len() >= 1 && is_aligned(init, xs.drop_last(), ys),
        },
    decreases init.len(),
{
    assert(init.push(op).len() == init.len() + 1);
    if init.len() == 0 {
        assert(init.push(op)[0] == op);
        assert(init.push(op).drop_first() =~= Seq::<Op>::empty());
        match op {
            Op::Match => {
                assert(is_aligned(Seq::<Op>::empty(), xs.drop_first(), ys.drop_first()));
                assert(xs.drop_first().len() == 0 && ys.drop_first().len() == 0);
                assert(xs.last() == xs[0] && ys.last() == ys[0]);
                assert(xs.drop_last() =~= Seq::<u8>::empty());
                assert(ys.drop_last() =~= Seq::<u8>::empty());
            },
            Op::Mismatch => {
                assert(is_aligned(Seq::<Op>::empty(), xs.drop_first(), ys.drop_first()));
                assert(xs.drop_first().len() == 0 && ys.drop_first().len() == 0);
                assert(xs.last() == xs[0] && ys.last() == ys[0]);
                assert(xs.drop_last() =~= Seq::<u8>::empty());
                assert(ys.drop_last() =~= Seq::<u8>::empty());
            },
            Op::Ins => {
                assert(is_aligned(Seq::<Op>::empty(), xs, ys.drop_first()));
                assert(xs.len() == 0 && ys.drop_first().len() == 0);
                assert(ys.last() == ys[0]);
                assert(ys.drop_last() =~= Seq::<u8>::empty());
            },
            Op::Del => {
                assert(is_aligned(Seq::<Op>::empty(), xs.drop_first(), ys));
                assert(xs.drop_first().len() == 0 && ys.len() == 0);
                assert(xs.last() == xs[0]);
                assert(xs.drop_last() =~= Seq::<u8>::empty());
            },
        }
    } else {
        let f = init[0];
        assert(init.push(op)[0] == f);
        assert(init.push(op).drop_first() =~= init.drop_first().push(op));
        let xd = if f != Op::Ins {
            xs.drop_first()
        } else {
            xs
        };
        let yd = if f != Op::Del {
            ys.drop_first()
        } else {
            ys
        };
        lemma_aligned_snoc(init.drop_first(), op, xd, yd);
        // the last symbols survive dropping the first, and dropping first and
        // last commutes, on whichever sides the two operations consume
        if xs.len() >= 2 {
            assert(xs.drop_first().last() == xs.last());
            assert(xs.drop_last().drop_first() =~= xs.drop_first().drop_last());
            assert(xs.drop_last()[0] == xs[0]);
        }
        if ys.len() >= 2 {
            assert(ys.drop_first().last() == ys.last());
            assert(ys.drop_last().drop_first() =~= ys.drop_first().drop_last());
            assert(ys.drop_last()[0] == ys[0]);
        }
        assert(init.drop_first() =~= init.drop_first());
        match op {
            Op::Match => {
                assert(is_aligned(init, xs.drop_last(), ys.drop_last()));
            },
            Op::Mismatch => {
                assert(is_aligned(init, xs.drop_last(), ys.drop_last()));
            },
            Op::Ins => {
                assert(is_aligned(init, xs, ys.drop_last()));
            },
            Op::Del => {
                assert(is_aligned(init, xs.drop_last(), ys));
            },
        }
    }
}

/// The marker for an aligned pair of equal symbols: the byte `|`.
pub const BAR_BYTE: u8 = 124;

/// The marker for an aligned pair of unequal symbols: the byte `X`.
pub const CROSS_BYTE: u8 = 88;

/// The blank that stands on the gapped side: the byte of a space.
pub const BLANK_BYTE: u8 = 32;

/// The character row triple that `recover` renders: the first sequence with
/// gaps, the marker row, and the second sequence with gaps.
pub open spec fn recover_rows(ops: Seq<Op>, xs: Seq<u8>, ys: Seq<u8>) -> (Seq<u8>, Seq<u8>, Seq<
    u8,
>)
    decreases ops.len(),
{
    if ops.len() == 0 {
        (Seq::empty(), Seq::empty(), Seq::empty())
    } else {
        match ops[0] {
            Op::Match => {
                let rest = recover_rows(ops.drop_first(), xs.drop_first(), ys.drop_first());
                let marker = if xs[0] == ys[0] {
                    BAR_BYTE
                } else {
                    CROSS_BYTE
                };
                (seq![xs[0]] + rest.0, seq![marker] + rest.1, seq![ys[0]] + rest.2)
            },
            Op::Mismatch => {
                let rest = recover_rows(ops.drop_first(), xs.drop_first(), ys.drop_first());
                let marker = if xs[0] == ys[0] {
                    BAR_BYTE
                } else {
                    CROSS_BYTE
                };
                (seq![xs[0]] + rest.0, seq![marker] + rest.1, seq![ys[0]] + rest.2)
            },
            Op::Del => {
                let rest = recover_rows(ops.drop_first(), xs.drop_first(), ys);
                (seq![xs[0]] + rest.0, seq![BLANK_BYTE] + rest.1, seq![BLANK_BYTE] + rest.2)
            },
            Op::Ins => {
                let rest = recover_rows(ops.drop_first(), xs, ys.drop_first());
                (seq![BLANK_BYTE] + rest.0, seq![BLANK_BYTE] + rest.1, seq![ys[0]] + rest.2)
            },
        }
    }
}

/// The one-character string an operation serializes to.
fn op_str(op: Op) -> (r: &'static str)
    ensures
        r@ == seq![op_char(op)],
{
    proof {
        reveal_strlit("=");
        reveal_strlit("X");
        reveal_strlit("I");
        reveal_strlit("D");
    }
    match op {
        Op::Match => {
            proof {
                assert("="@ =~= seq![op_char(op)]);
            }
            "="
        },
        Op::Mismatch => {
            proof {
                assert("X"@ =~= seq![op_char(op)]);
            }
            "X"
        },
        Op::Ins => {
            proof {
                assert("I"@ =~= seq![op_char(op)]);
            }
            "I"
        },
        Op::Del => {
            proof {
                assert("D"@ =~= seq![op_char(op)]);
            }
            "D"
        },
    }
}

/// Reverses an operation vector.
pub(crate) fn reversed_ops(v: &Vec<Op>) -> (r: Vec<Op>)
    ensures
        r@ == v@.reverse(),
{
    let mut r: Vec<Op> = Vec::new();
    let mut i: usize = v.len();
    while i > 0
        invariant
            i <= v@.len(),
            r@.len() == v@.len() - i,
            forall|t: int| 0 <= t < r@.len() ==> r@[t] == v@[v@.len() - 1 - t],
        decreases i,
    {
        i -= 1;
        r.push(v[i]);
    }
    proof {
        assert(r@ =~= v@.reverse());
    }
    r
}

/// An edit script, the result of every solver.
#[derive(Debug, Clone)]
pub struct Alignment {
    pub ops: Vec<Op>,
}

impl Alignment {
    /// Wraps an operation sequence.
    pub fn new(ops: Vec<Op>) -> (r: Self)
        ensures
            r.ops@ == ops@,
    {
        Self { ops }
    }

    /// Serializes the script over the alphabet `=`, `X`, `I`, `D`.
    pub fn to_string(&self) -> (r: String)
        ensures
            r@ == ops_string(self.ops@),
    {
        let mut s = String::new();
        let mut i: usize = 0;
        while i < self.ops.len()
            invariant
                i <= self.ops@.len(),
                s@ == ops_string(self.ops@.take(i as int)),
            decreases self.ops@.len() - i,
        {
            let op = self.ops[i];
            s.append(op_str(op));
            proof {
                assert(ops_string(self.ops@.take(i + 1 as int)) =~= ops_string(
                    self.ops@.take(i as int),
                ) + seq![op_char(op)]);
            }
            i += 1;
        }
        proof {
            assert(self.ops@.take(self.ops@.len() as int) =~= self.ops@);
        }
        s
    }

    /// Parses a script from text; any character outside the alphabet makes
    /// the whole text invalid and yields `None`.
    pub fn from_str(aln: &str) -> (r: Option<Alignment>)
        ensures
            match r {
                Some(a) => a.ops@.len() == aln@.len() && forall|i: int|
                    0 <= i < aln@.len() ==> char_op(aln@[i]) == Some(a.ops@[i]),
                None => exists|i: int| 0 <= i < aln@.len() && char_op(aln@[i]) is None,
            },
    {
        let n = aln.unicode_len();
        let mut ops: Vec<Op> = Vec::new();
        let mut i: usize = 0;
        while i < n
            invariant
                n == aln@.len(),
                i <= n,
                ops@.len() == i,
                forall|j: int| 0 <= j < i ==> char_op(aln@[j]) == Some(ops@[j]),
            decreases n - i,
        {
            let c = aln.get_char(i);
            match Op::from_char(c) {
                Some(op) => {
                    ops.push(op);
                },
                None => {
                    proof {
                        assert(char_op(aln@[i as int]) is None);
                    }
                    return None;
                },
            }
            i += 1;
        }
        Some(Alignment { ops })
    }

    /// The distance this script witnesses and its number of gap runs, in one
    /// linear pass.
    pub fn dist_and_num_of_gaps(&self) -> (r: (u32, u32))
        requires
            self.ops@.len() <= u32::MAX,
        ensures
            r.0 == dist_of(self.ops@),
            r.1 == gap_runs(self.ops@),
    {
        let mut dist: u32 = 0;
        let mut num_of_gap: u32 = 0;
        let mut prev: Option<Op> = None;
        let mut i: usize = 0;
        while i < self.ops.len()
            invariant
                i <= self.ops@.len(),
                self.ops@.len() <= u32::MAX,
                dist == dist_of(self.ops@.take(i as int)),
                num_of_gap == gap_runs(self.ops@.take(i as int)),
                dist <= i,
                num_of_gap <= i,
                prev == (if i == 0 {
                    Option::<Op>::None
                } else {
                    Some(self.ops@[i - 1])
                }),
            decreases self.ops@.len() - i,
        {
            let op = self.ops[i];
            proof {
                lemma_dist_of_push(self.ops@.take(i as int), op);
                lemma_gap_runs_push(self.ops@.take(i as int), None, op);
                assert(self.ops@.take(i + 1 as int) =~= self.ops@.take(i as int).push(op));
            }
            if op != Op::Match {
                dist = dist + 1;
            }
            let prev_is_del = matches!(prev, Some(Op::Del));
            let prev_is_ins = matches!(prev, Some(Op::Ins));
            if op == Op::Del && !prev_is_del {
                num_of_gap = num_of_gap + 1;
            }
            if op == Op::Ins && !prev_is_ins {
                num_of_gap = num_of_gap + 1;
            }
            prev = Some(op);
            i += 1;
        }
        proof {
            assert(self.ops@.take(self.ops@.len() as int) =~= self.ops@);
        }
        (dist, num_of_gap)
    }

    /// Renders the three-row visualization of this script over the two
    /// original sequences: reference row with gaps, marker row, query row
    /// with gaps.
    pub fn recover(&self, xs: &[u8], ys: &[u8]) -> (r: (Vec<u8>, Vec<u8>, Vec<u8>))
        requires
            xlen(self.ops@) <= xs@.len(),
            ylen(self.ops@) <= ys@.len(),
        ensures
            r.0@ == recover_rows(self.ops@, xs@, ys@).0,
            r.1@ == recover_rows(self.ops@, xs@, ys@).1,
            r.2@ == recover_rows(self.ops@, xs@, ys@).2,
    {
        let ops_len = self.ops.len();
        let mut i: usize = 0;
        let mut j: usize = 0;
        let mut xr: Vec<u8> = Vec::new();
        let mut ar: Vec<u8> = Vec::new();
        let mut yr: Vec<u8> = Vec::new();
        let mut k: usize = 0;
        proof {
            assert(self.ops@.skip(0) =~= self.ops@);
            assert(xs@.skip(0) =~= xs@);
            assert(ys@.skip(0) =~= ys@);
        }
        while k < ops_len
            invariant
                ops_len == self.ops@.len(),
                k <= ops_len,
                i <= xs@.len(),
                j <= ys@.len(),
                i + xlen(self.ops@.skip(k as int)) <= xs@.len(),
                j + ylen(self.ops@.skip(k as int)) <= ys@.len(),
                recover_rows(self.ops@, xs@, ys@).0 == xr@ + recover_rows(
                    self.ops@.skip(k as int),
                    xs@.skip(i as int),
                    ys@.skip(j as int),
                ).0,
                recover_rows(self.ops@, xs@, ys@).1 == ar@ + recover_rows(
                    self.ops@.skip(k as int),
                    xs@.skip(i as int),
                    ys@.skip(j as int),
                ).1,
                recover_rows(self.ops@, xs@, ys@).2 == yr@ + recover_rows(
                    self.ops@.skip(k as int),
                    xs@.skip(i as int),
                    ys@.skip(j as int),
                ).2,
            decreases ops_len - k,
        {
            let op = self.ops[k];
            proof {
                assert(self.ops@.skip(k as int)[0] == self.ops@[k as int]);
                assert(self.ops@.skip(k as int).drop_first() =~= self.ops@.skip(k + 1 as int));
                if op != Op::Ins {
                    assert(xlen(self.ops@.skip(k as int)) >= 1);
                    assert(i < xs@.len());
                    assert(xs@.skip(i as int).drop_first() =~= xs@.skip(i + 1 as int));
                    assert(xs@.skip(i as int)[0] == xs@[i as int]);
                }
                if op != Op::Del {
                    assert(ylen(self.ops@.skip(k as int)) >= 1);
                    assert(j < ys@.len());
                    assert(ys@.skip(j as int).drop_first() =~= ys@.skip(j + 1 as int));
                    assert(ys@.skip(j as int)[0] == ys@[j as int]);
                }
            }
            let ghost old_xr = xr@;
            let ghost old_ar = ar@;
            let ghost old_yr = yr@;
            match op {
                Op::Match | Op::Mismatch => {
                    xr.push(xs[i]);
                    yr.push(ys[j]);
                    if xs[i] == ys[j] {
                        ar.push(BAR_BYTE);
                    } else {
                        ar.push(CROSS_BYTE);
                    }
                    i += 1;
                    j += 1;
                },
                Op::Del => {
                    xr.push(xs[i]);
                    ar.push(BLANK_BYTE);
                    yr.push(BLANK_BYTE);
                    i += 1;
                },
                Op::Ins => {
                    xr.push(BLANK_BYTE);
                    ar.push(BLANK_BYTE);
                    yr.push(ys[j]);
                    j += 1;
                },
            }
            proof {
                assert(xr@ =~= old_xr + seq![xr@.last()]);
                assert(ar@ =~= old_ar + seq![ar@.last()]);
                assert(yr@ =~= old_yr + seq![yr@.last()]);
                assert(recover_rows(self.ops@, xs@, ys@).0 =~= xr@ + recover_rows(
                    self.ops@.skip(k + 1 as int),
                    xs@.skip(i as int),
                    ys@.skip(j as int),
                ).0);
                assert(recover_rows(self.ops@, xs@, ys@).1 =~= ar@ + recover_rows(
                    self.ops@.skip(k + 1 as int),
                    xs@.skip(i as int),
                    ys@.skip(j as int),
                ).1);
                assert(recover_rows(self.ops@, xs@, ys@).2 =~= yr@ + recover_rows(
                    self.ops@.skip(k + 1 as int),
                    xs@.skip(i as int),
                    ys@.skip(j as int),
                ).2);
            }
            k += 1;
        }
        proof {
            assert(recover_rows(self.ops@, xs@, ys@).0 =~= xr@);
            assert(recover_rows(self.ops@, xs@, ys@).1 =~= ar@);
            assert(recover_rows(self.ops@, xs@, ys@).2 =~= yr@);
        }
        (xr, ar, yr)
    }
}

} // verus!
