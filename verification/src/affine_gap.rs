//! The affine-gap alignment engine (Gotoh's algorithm): maximizes a score
//! with separate gap-open and gap-extend penalties, over three states per
//! cell — an aligned pair, a deletion, an insertion — and reconstructs the
//! scoring script by backpointer traceback.

use vstd::prelude::*;
use crate::alignments::Alignment;
use crate::alignments::Op;
use crate::alignments::is_aligned;
use crate::alignments::lemma_aligned_cons;
use crate::alignments::lemma_aligned_snoc;
use crate::alignments::reversed_ops;

verus! {

/// The magnitude every scoring parameter must stay within.
pub const SCORE_BOUND: i64 = 0x4000_0000;

/// The score of pairing symbols `x` and `y`.
pub open spec fn sub_score(x: u8, y: u8, mat: int, mism: int) -> int {
    if x == y {
        mat
    } else {
        mism
    }
}

/// The larger of two optional scores; an absent score never wins.
pub open spec fn omax(a: Option<int>, b: Option<int>) -> Option<int> {
    match (a, b) {
        (None, None) => None,
        (Some(x), None) => Some(x),
        (None, Some(y)) => Some(y),
        (Some(x), Some(y)) => Some(
            if x >= y {
                x
            } else {
                y
            },
        ),
    }
}

/// An optional score shifted by a step cost.
pub open spec fn oadd(a: Option<int>, k: int) -> Option<int> {
    match a {
        Some(v) => Some(v + k),
        None => None,
    }
}

/// The best score of an alignment of `xs[..i]` and `ys[..j]` that ends in
/// an aligned pair, or `None` where no such alignment exists.
pub open spec fn ga_m(
    xs: Seq<u8>,
    ys: Seq<u8>,
    mat: int,
    mism: int,
    open: int,
    ext: int,
    i: nat,
    j: nat,
) -> Option<int>
    decreases i + j,
{
    if i == 0 && j == 0 {
        Some(0)
    } else if i == 0 || j == 0 {
        None
    } else {
        match omax(
            omax(
                ga_m(xs, ys, mat, mism, open, ext, (i - 1) as nat, (j - 1) as nat),
                ga_d(xs, ys, mat, mism, open, ext, (i - 1) as nat, (j - 1) as nat),
            ),
            ga_i(xs, ys, mat, mism, open, ext, (i - 1) as nat, (j - 1) as nat),
        ) {
            Some(v) => Some(v + sub_score(xs[i - 1], ys[j - 1], mat, mism)),
            None => None,
        }
    }
}

/// The best score of an alignment of `xs[..i]` and `ys[..j]` that ends in a
/// deletion.
pub open spec fn ga_d(
    xs: Seq<u8>,
    ys: Seq<u8>,
    mat: int,
    mism: int,
    open: int,
    ext: int,
    i: nat,
    j: nat,
) -> Option<int>
    decreases i + j,
{
    if i == 0 {
        None
    } else if j == 0 {
        Some(open + (i - 1) * ext)
    } else {
        omax(
            omax(
                oadd(ga_m(xs, ys, mat, mism, open, ext, (i - 1) as nat, j), open),
                oadd(ga_i(xs, ys, mat, mism, open, ext, (i - 1) as nat, j), open),
            ),
            oadd(ga_d(xs, ys, mat, mism, open, ext, (i - 1) as nat, j), ext),
        )
    }
}

/// The best score of an alignment of `xs[..i]` and `ys[..j]` that ends in an
/// insertion.
pub open spec fn ga_i(
    xs: Seq<u8>,
    ys: Seq<u8>,
    mat: int,
    mism: int,
    open: int,
    ext: int,
    i: nat,
    j: nat,
) -> Option<int>
    decreases i + j,
{
    if j == 0 {
        None
    } else if i == 0 {
        Some(open + (j - 1) * ext)
    } else {
        omax(
            omax(
                oadd(ga_m(xs, ys, mat, mism, open, ext, i, (j - 1) as nat), open),
                oadd(ga_d(xs, ys, mat, mism, open, ext, i, (j - 1) as nat), open),
            ),
            oadd(ga_i(xs, ys, mat, mism, open, ext, i, (j - 1) as nat), ext),
        )
    }
}

/// The optimal affine-gap score of aligning `xs` against `ys`: the best of
/// the three states at the final corner.
pub open spec fn affine_best(
    xs: Seq<u8>,
    ys: Seq<u8>,
    mat: int,
    mism: int,
    open: int,
    ext: int,
) -> int {
    match omax(
        omax(
            ga_m(xs, ys, mat, mism, open, ext, xs.len(), ys.len()),
            ga_d(xs, ys, mat, mism, open, ext, xs.len(), ys.len()),
        ),
        ga_i(xs, ys, mat, mism, open, ext, xs.len(), ys.len()),
    ) {
        Some(v) => v,
        None => 0,
    }
}

/// The affine-gap score of an edit script over the sequences it consumes,
/// when the operation before the script is of the class of `prev`: a gap
/// step costs `ext` where it continues a gap of the same kind and `open`
/// where it starts one.
pub open spec fn affine_score_from(
    ops: Seq<Op>,
    xs: Seq<u8>,
    ys: Seq<u8>,
    mat: int,
    mism: int,
    open: int,
    ext: int,
    prev: Op,
) -> int
    decreases ops.len(),
{
    if ops.len() == 0 {
        0
    } else {
        match ops[0] {
            Op::Match => sub_score(xs[0], ys[0], mat, mism) + affine_score_from(
                ops.drop_first(),
                xs.drop_first(),
                ys.drop_first(),
                mat,
                mism,
                open,
                ext,
                Op::Match,
            ),
            Op::Mismatch => sub_score(xs[0], ys[0], mat, mism) + affine_score_from(
                ops.drop_first(),
                xs.drop_first(),
                ys.drop_first(),
                mat,
                mism,
                open,
                ext,
                Op::Match,
            ),
            Op::Del => (if prev == Op::Del {
                ext
            } else {
                open
            }) + affine_score_from(
                ops.drop_first(),
                xs.drop_first(),
                ys,
                mat,
                mism,
                open,
                ext,
                Op::Del,
            ),
            Op::Ins => (if prev == Op::Ins {
                ext
            } else {
                open
            }) + affine_score_from(
                ops.drop_first(),
                xs,
                ys.drop_first(),
                mat,
                mism,
                open,
                ext,
                Op::Ins,
            ),
        }
    }
}

/// The affine-gap score of a whole edit script.
pub open spec fn affine_score(
    ops: Seq<Op>,
    xs: Seq<u8>,
    ys: Seq<u8>,
    mat: int,
    mism: int,
    open: int,
    ext: int,
) -> int {
    affine_score_from(ops, xs, ys, mat, mism, open, ext, Op::Match)
}

/// Which states can score an alignment of the two prefixes: an aligned pair
/// needs both prefixes non-empty, a deletion a non-empty first prefix, an
/// insertion a non-empty second prefix.
pub proof fn lemma_ga_shape(
    xs: Seq<u8>,
    ys: Seq<u8>,
    mat: int,
    mism: int,
    open: int,
    ext: int,
    i: nat,
    j: nat,
)
    ensures
        (ga_m(xs, ys, mat, mism, open, ext, i, j) is Some) <==> ((i == 0 && j == 0) || (i >= 1 && j
            >= 1)),
        (ga_d(xs, ys, mat, mism, open, ext, i, j) is Some) <==> i >= 1,
        (ga_i(xs, ys, mat, mism, open, ext, i, j) is Some) <==> j >= 1,
    decreases i + j,
{
    if i >= 1 && j >= 1 {
        lemma_ga_shape(xs, ys, mat, mism, open, ext, (i - 1) as nat, (j - 1) as nat);
        lemma_ga_shape(xs, ys, mat, mism, open, ext, (i - 1) as nat, j);
        lemma_ga_shape(xs, ys, mat, mism, open, ext, i, (j - 1) as nat);
    } else if i >= 1 {
        lemma_ga_shape(xs, ys, mat, mism, open, ext, (i - 1) as nat, j);
    } else if j >= 1 {
        lemma_ga_shape(xs, ys, mat, mism, open, ext, i, (j - 1) as nat);
    }
}

/// Every reachable score is within the summed step budget.
pub proof fn lemma_ga_bounds(
    xs: Seq<u8>,
    ys: Seq<u8>,
    mat: int,
    mism: int,
    open: int,
    ext: int,
    i: nat,
    j: nat,
)
    requires
        -SCORE_BOUND <= mat <= SCORE_BOUND,
        -SCORE_BOUND <= mism <= SCORE_BOUND,
        -SCORE_BOUND <= open <= SCORE_BOUND,
        -SCORE_BOUND <= ext <= SCORE_BOUND,
    ensures
        match ga_m(xs, ys, mat, mism, open, ext, i, j) {
            Some(v) => -(SCORE_BOUND * ((i + j) as int)) <= v <= SCORE_BOUND * ((i + j) as int),
            None => true,
        },
        match ga_d(xs, ys, mat, mism, open, ext, i, j) {
            Some(v) => -(SCORE_BOUND * ((i + j) as int)) <= v <= SCORE_BOUND * ((i + j) as int),
            None => true,
        },
        match ga_i(xs, ys, mat, mism, open, ext, i, j) {
            Some(v) => -(SCORE_BOUND * ((i + j) as int)) <= v <= SCORE_BOUND * ((i + j) as int),
            None => true,
        },
    decreases i + j,
{
    if i >= 1 && j >= 1 {
        lemma_ga_bounds(xs, ys, mat, mism, open, ext, (i - 1) as nat, (j - 1) as nat);
        lemma_ga_bounds(xs, ys, mat, mism, open, ext, (i - 1) as nat, j);
        lemma_ga_bounds(xs, ys, mat, mism, open, ext, i, (j - 1) as nat);
        assert(SCORE_BOUND * ((i + j - 2) as int) + SCORE_BOUND <= SCORE_BOUND * ((i + j) as int))
            by (nonlinear_arith)
            requires
                i >= 1 && j >= 1,
        ;
        assert(SCORE_BOUND * ((i + j - 1) as int) + SCORE_BOUND == SCORE_BOUND * ((i + j) as int))
            by (nonlinear_arith)
        ;
    } else if i >= 1 && j == 0 {
        assert(-(SCORE_BOUND * ((i - 1) as int)) <= (i - 1) * ext <= SCORE_BOUND * ((i - 1) as int))
            by (nonlinear_arith)
            requires
                i >= 1,
                -SCORE_BOUND <= ext <= SCORE_BOUND,
        ;
        assert(SCORE_BOUND * ((i - 1) as int) + SCORE_BOUND == SCORE_BOUND * (i as int))
            by (nonlinear_arith)
        ;
        assert(SCORE_BOUND * (i as int) <= SCORE_BOUND * ((i + j) as int));
    } else if j >= 1 && i == 0 {
        assert(-(SCORE_BOUND * ((j - 1) as int)) <= (j - 1) * ext <= SCORE_BOUND * ((j - 1) as int))
            by (nonlinear_arith)
            requires
                j >= 1,
                -SCORE_BOUND <= ext <= SCORE_BOUND,
        ;
        assert(SCORE_BOUND * ((j - 1) as int) + SCORE_BOUND == SCORE_BOUND * (j as int))
            by (nonlinear_arith)
        ;
        assert(SCORE_BOUND * (j as int) <= SCORE_BOUND * ((i + j) as int));
    }
}

/// The states only read the prefixes they score: equal prefixes give equal
/// values whatever follows them.
pub proof fn lemma_ga_prefix(
    xs1: Seq<u8>,
    ys1: Seq<u8>,
    xs2: Seq<u8>,
    ys2: Seq<u8>,
    mat: int,
    mism: int,
    open: int,
    ext: int,
    i: nat,
    j: nat,
)
    requires
        i <= xs1.len(),
        i <= xs2.len(),
        j <= ys1.len(),
        j <= ys2.len(),
        xs1.take(i as int) == xs2.take(i as int),
        ys1.take(j as int) == ys2.take(j as int),
    ensures
        ga_m(xs1, ys1, mat, mism, open, ext, i, j) == ga_m(xs2, ys2, mat, mism, open, ext, i, j),
        ga_d(xs1, ys1, mat, mism, open, ext, i, j) == ga_d(xs2, ys2, mat, mism, open, ext, i, j),
        ga_i(xs1, ys1, mat, mism, open, ext, i, j) == ga_i(xs2, ys2, mat, mism, open, ext, i, j),
    decreases i + j,
{
    if i >= 1 {
        assert(xs1.take(i - 1 as int) =~= xs2.take(i - 1 as int)) by {
            assert(forall|t: int|
                0 <= t < i ==> xs1.take(i as int)[t] == #[trigger] xs2.take(i as int)[t]);
        }
        assert(xs1[i - 1] == xs2[i - 1]) by {
            assert(xs1.take(i as int)[i - 1] == xs1[i - 1]);
            assert(xs2.take(i as int)[i - 1] == xs2[i - 1]);
            assert(xs1.take(i as int)[i - 1] == xs2.take(i as int)[i - 1]);
        }
    }
    if j >= 1 {
        assert(ys1.take(j - 1 as int) =~= ys2.take(j - 1 as int)) by {
            assert(forall|t: int|
                0 <= t < j ==> ys1.take(j as int)[t] == #[trigger] ys2.take(j as int)[t]);
        }
        assert(ys1[j - 1] == ys2[j - 1]) by {
            assert(ys1.take(j as int)[j - 1] == ys1[j - 1]);
            assert(ys2.take(j as int)[j - 1] == ys2[j - 1]);
            assert(ys1.take(j as int)[j - 1] == ys2.take(j as int)[j - 1]);
        }
    }
    if i >= 1 && j >= 1 {
        lemma_ga_prefix(xs1, ys1, xs2, ys2, mat, mism, open, ext, (i - 1) as nat, (j - 1) as nat);
        lemma_ga_prefix(xs1, ys1, xs2, ys2, mat, mism, open, ext, (i - 1) as nat, j);
        lemma_ga_prefix(xs1, ys1, xs2, ys2, mat, mism, open, ext, i, (j - 1) as nat);
    } else if i >= 1 {
        lemma_ga_prefix(xs1, ys1, xs2, ys2, mat, mism, open, ext, (i - 1) as nat, j);
    } else if j >= 1 {
        lemma_ga_prefix(xs1, ys1, xs2, ys2, mat, mism, open, ext, i, (j - 1) as nat);
    }
}

/// With a match score of zero and no rewarding penalties, no state of any
/// cell scores above zero, and the aligned-pair state of a sequence against
/// itself scores exactly zero on the diagonal.
pub proof fn lemma_affine_self(s: Seq<u8>, mism: int, open: int, ext: int, i: nat, j: nat)
    requires
        mism <= 0,
        open <= 0,
        ext <= 0,
        i <= s.len(),
        j <= s.len(),
    ensures
        match ga_m(s, s, 0, mism, open, ext, i, j) {
            Some(v) => v <= 0 && (i == j ==> v == 0),
            None => true,
        },
        match ga_d(s, s, 0, mism, open, ext, i, j) {
            Some(v) => v <= 0,
            None => true,
        },
        match ga_i(s, s, 0, mism, open, ext, i, j) {
            Some(v) => v <= 0,
            None => true,
        },
    decreases i + j,
{
    if i >= 1 && j >= 1 {
        lemma_affine_self(s, mism, open, ext, (i - 1) as nat, (j - 1) as nat);
        lemma_affine_self(s, mism, open, ext, (i - 1) as nat, j);
        lemma_affine_self(s, mism, open, ext, i, (j - 1) as nat);
        if i == j {
            lemma_ga_shape(s, s, 0, mism, open, ext, (i - 1) as nat, (j - 1) as nat);
            assert(sub_score(s[i - 1], s[j - 1], 0, mism) == 0);
        }
    } else if i >= 1 && j == 0 {
        assert((i - 1) * ext <= 0) by (nonlinear_arith)
            requires
                i >= 1,
                ext <= 0,
        ;
    } else if j >= 1 && i == 0 {
        assert((j - 1) * ext <= 0) by (nonlinear_arith)
            requires
                j >= 1,
                ext <= 0,
        ;
    }
}

/// Law: aligning any sequence against itself, with a match score of zero and
/// penalties that never reward an edit, scores exactly zero.
pub proof fn lemma_affine_self_best(s: Seq<u8>, mism: int, open: int, ext: int)
    requires
        mism <= 0,
        open <= 0,
        ext <= 0,
    ensures
        affine_best(s, s, 0, mism, open, ext) == 0,
{
    lemma_affine_self(s, mism, open, ext, s.len(), s.len());
    lemma_ga_shape(s, s, 0, mism, open, ext, s.len(), s.len());
}

/// One of the three per-cell states.
#[derive(Debug, Clone, Copy, PartialEq, Eq, Structural)]
pub enum AffState {
    Mat,
    Del,
    Ins,
}

/// One state of one cell: its score and the state it came from.
#[derive(Debug, Clone, Copy)]
pub struct AffCell {
    pub score: i64,
    pub prev: Option<AffState>,
}

/// One cell: all three states at one position pair.
#[derive(Debug, Clone, Copy)]
pub struct AffNode {
    pub mat: AffCell,
    pub del: AffCell,
    pub ins: AffCell,
}

/// The state's score function.
pub open spec fn st_val(
    xs: Seq<u8>,
    ys: Seq<u8>,
    mat: int,
    mism: int,
    open: int,
    ext: int,
    st: AffState,
    i: nat,
    j: nat,
) -> Option<int> {
    match st {
        AffState::Mat => ga_m(xs, ys, mat, mism, open, ext, i, j),
        AffState::Del => ga_d(xs, ys, mat, mism, open, ext, i, j),
        AffState::Ins => ga_i(xs, ys, mat, mism, open, ext, i, j),
    }
}

/// The operation class a state stands for.
pub open spec fn class_of(st: AffState) -> Op {
    match st {
        AffState::Mat => Op::Match,
        AffState::Del => Op::Del,
        AffState::Ins => Op::Ins,
    }
}

/// The sentinel score of an unreachable state: low enough that no chain of
/// steps from it can ever beat a reachable score.
pub open spec fn neg_sentinel(xs: Seq<u8>, ys: Seq<u8>) -> int {
    -((2 * (xs.len() + ys.len()) + 2) as int * SCORE_BOUND)
}

/// What the aligned-pair state of a cell says: an unreachable state holds
/// the sentinel and no backpointer; a reachable one holds its score and a
/// backpointer into a reachable state it stepped from.
pub open spec fn cell_m_ok(
    xs: Seq<u8>,
    ys: Seq<u8>,
    mat: int,
    mism: int,
    open: int,
    ext: int,
    i: int,
    j: int,
    c: AffCell,
) -> bool {
    match ga_m(xs, ys, mat, mism, open, ext, i as nat, j as nat) {
        None => c.score == neg_sentinel(xs, ys) && c.prev is None,
        Some(v) => c.score == v && match c.prev {
            None => i == 0 && j == 0,
            Some(pst) => 1 <= i && 1 <= j && match st_val(
                xs,
                ys,
                mat,
                mism,
                open,
                ext,
                pst,
                (i - 1) as nat,
                (j - 1) as nat,
            ) {
                Some(pv) => v == pv + sub_score(xs[i - 1], ys[j - 1], mat, mism),
                None => false,
            },
        },
    }
}

/// What the deletion state of a cell says.
pub open spec fn cell_d_ok(
    xs: Seq<u8>,
    ys: Seq<u8>,
    mat: int,
    mism: int,
    open: int,
    ext: int,
    i: int,
    j: int,
    c: AffCell,
) -> bool {
    match ga_d(xs, ys, mat, mism, open, ext, i as nat, j as nat) {
        None => c.score == neg_sentinel(xs, ys) && c.prev is None,
        Some(v) => c.score == v && match c.prev {
            None => false,
            Some(pst) => 1 <= i && (if i == 1 && j == 0 {
                v == open
            } else {
                match st_val(xs, ys, mat, mism, open, ext, pst, (i - 1) as nat, j as nat) {
                    Some(pv) => v == pv + (if pst == AffState::Del {
                        ext
                    } else {
                        open
                    }),
                    None => false,
                }
            }),
        },
    }
}

/// What the insertion state of a cell says.
pub open spec fn cell_i_ok(
    xs: Seq<u8>,
    ys: Seq<u8>,
    mat: int,
    mism: int,
    open: int,
    ext: int,
    i: int,
    j: int,
    c: AffCell,
) -> bool {
    match ga_i(xs, ys, mat, mism, open, ext, i as nat, j as nat) {
        None => c.score == neg_sentinel(xs, ys) && c.prev is None,
        Some(v) => c.score == v && match c.prev {
            None => false,
            Some(pst) => 1 <= j && (if j == 1 && i == 0 {
                v == open
            } else {
                match st_val(xs, ys, mat, mism, open, ext, pst, i as nat, (j - 1) as nat) {
                    Some(pv) => v == pv + (if pst == AffState::Ins {
                        ext
                    } else {
                        open
                    }),
                    None => false,
                }
            }),
        },
    }
}

/// All three states of a cell say what they should.
pub open spec fn node_ok(
    xs: Seq<u8>,
    ys: Seq<u8>,
    mat: int,
    mism: int,
    open: int,
    ext: int,
    i: int,
    j: int,
    node: AffNode,
) -> bool {
    &&& cell_m_ok(xs, ys, mat, mism, open, ext, i, j, node.mat)
    &&& cell_d_ok(xs, ys, mat, mism, open, ext, i, j, node.del)
    &&& cell_i_ok(xs, ys, mat, mism, open, ext, i, j, node.ins)
}

/// Putting a legal operation in front of a scored script adds that step's
/// charge: the pair score for an aligned pair, the extension penalty for a
/// gap step that continues a gap of its own kind, the opening penalty
/// otherwise.
pub proof fn lemma_score_cons(
    op: Op,
    rest: Seq<Op>,
    xs: Seq<u8>,
    ys: Seq<u8>,
    mat: int,
    mism: int,
    open: int,
    ext: int,
    prev: Op,
)
    ensures
        affine_score_from(seq![op] + rest, xs, ys, mat, mism, open, ext, prev) == (match op {
            Op::Match => sub_score(xs[0], ys[0], mat, mism) + affine_score_from(
                rest,
                xs.drop_first(),
                ys.drop_first(),
                mat,
                mism,
                open,
                ext,
                Op::Match,
            ),
            Op::Mismatch => sub_score(xs[0], ys[0], mat, mism) + affine_score_from(
                rest,
                xs.drop_first(),
                ys.drop_first(),
                mat,
                mism,
                open,
                ext,
                Op::Match,
            ),
            Op::Del => (if prev == Op::Del {
                ext
            } else {
                open
            }) + affine_score_from(rest, xs.drop_first(), ys, mat, mism, open, ext, Op::Del),
            Op::Ins => (if prev == Op::Ins {
                ext
            } else {
                open
            }) + affine_score_from(rest, xs, ys.drop_first(), mat, mism, open, ext, Op::Ins),
        }),
{
    assert((seq![op] + rest)[0] == op);
    assert((seq![op] + rest).drop_first() =~= rest);
}

/// The aligned-pair state of an interior cell, from the diagonal
/// neighbour.  The best scoring predecessor state wins; on ties the later
/// state in the order aligned-pair, deletion, insertion wins.
#[verifier::rlimit(60)]
#[verifier::spinoff_prover]
fn mat_cell(
    diag: AffNode,
    x: u8,
    y: u8,
    mat_score: i64,
    mism: i64,
    gap_open: i64,
    gap_extend: i64,
    Ghost(xs): Ghost<Seq<u8>>,
    Ghost(ys): Ghost<Seq<u8>>,
    Ghost(i): Ghost<int>,
    Ghost(j): Ghost<int>,
) -> (r: AffCell)
    requires
        xs.len() + ys.len() <= 0x4000_0000,
        -SCORE_BOUND <= mat_score <= SCORE_BOUND,
        -SCORE_BOUND <= mism <= SCORE_BOUND,
        -SCORE_BOUND <= gap_open <= SCORE_BOUND,
        -SCORE_BOUND <= gap_extend <= SCORE_BOUND,
        1 <= i <= xs.len(),
        1 <= j <= ys.len(),
        x == xs[i - 1],
        y == ys[j - 1],
        node_ok(
            xs,
            ys,
            mat_score as int,
            mism as int,
            gap_open as int,
            gap_extend as int,
            i - 1,
            j - 1,
            diag,
        ),
    ensures
        cell_m_ok(
            xs,
            ys,
            mat_score as int,
            mism as int,
            gap_open as int,
            gap_extend as int,
            i,
            j,
            r,
        ),
{
    proof {
        let ma = mat_score as int;
        let mi = mism as int;
        let go = gap_open as int;
        let ge = gap_extend as int;
        lemma_ga_shape(xs, ys, ma, mi, go, ge, (i - 1) as nat, (j - 1) as nat);
        lemma_ga_bounds(xs, ys, ma, mi, go, ge, (i - 1) as nat, (j - 1) as nat);
        assert(0 < SCORE_BOUND * ((i + j - 1) as int) <= SCORE_BOUND * ((xs.len()
            + ys.len()) as int)) by (nonlinear_arith)
            requires
                1 <= i + j - 1 <= xs.len() + ys.len(),
                SCORE_BOUND > 0,
        ;
    }
    let sub: i64 = if x == y {
        mat_score
    } else {
        mism
    };
    let c_mm = diag.mat.score + sub;
    let c_md = diag.del.score + sub;
    let c_mi = diag.ins.score + sub;
    let mut best = c_mm;
    let mut bst = AffState::Mat;
    if c_md >= best {
        best = c_md;
        bst = AffState::Del;
    }
    if c_mi >= best {
        best = c_mi;
        bst = AffState::Ins;
    }
    AffCell { score: best, prev: Some(bst) }
}

/// The deletion state of an interior cell, from the neighbour above: a gap
/// opens from the aligned-pair or insertion state and extends from the
/// deletion state.
#[verifier::rlimit(60)]
#[verifier::spinoff_prover]
fn del_cell(
    up: AffNode,
    mat_score: i64,
    mism: i64,
    gap_open: i64,
    gap_extend: i64,
    Ghost(xs): Ghost<Seq<u8>>,
    Ghost(ys): Ghost<Seq<u8>>,
    Ghost(i): Ghost<int>,
    Ghost(j): Ghost<int>,
) -> (r: AffCell)
    requires
        xs.len() + ys.len() <= 0x4000_0000,
        -SCORE_BOUND <= mat_score <= SCORE_BOUND,
        -SCORE_BOUND <= mism <= SCORE_BOUND,
        -SCORE_BOUND <= gap_open <= SCORE_BOUND,
        -SCORE_BOUND <= gap_extend <= SCORE_BOUND,
        1 <= i <= xs.len(),
        1 <= j <= ys.len(),
        node_ok(
            xs,
            ys,
            mat_score as int,
            mism as int,
            gap_open as int,
            gap_extend as int,
            i - 1,
            j,
            up,
        ),
    ensures
        cell_d_ok(
            xs,
            ys,
            mat_score as int,
            mism as int,
            gap_open as int,
            gap_extend as int,
            i,
            j,
            r,
        ),
{
    proof {
        let ma = mat_score as int;
        let mi = mism as int;
        let go = gap_open as int;
        let ge = gap_extend as int;
        lemma_ga_shape(xs, ys, ma, mi, go, ge, (i - 1) as nat, j as nat);
        lemma_ga_bounds(xs, ys, ma, mi, go, ge, (i - 1) as nat, j as nat);
        assert(0 < SCORE_BOUND * ((i + j) as int) <= SCORE_BOUND * ((xs.len()
            + ys.len()) as int)) by (nonlinear_arith)
            requires
                1 <= i + j <= xs.len() + ys.len(),
                SCORE_BOUND > 0,
        ;
    }
    let c_dm = up.mat.score + gap_open;
    let c_dd = up.del.score + gap_extend;
    let c_di = up.ins.score + gap_open;
    let mut best = c_dm;
    let mut bst = AffState::Mat;
    if c_dd >= best {
        best = c_dd;
        bst = AffState::Del;
    }
    if c_di >= best {
        best = c_di;
        bst = AffState::Ins;
    }
    AffCell { score: best, prev: Some(bst) }
}

/// The insertion state of an interior cell, from the neighbour to the left:
/// the mirror of `del_cell`.
#[verifier::rlimit(60)]
#[verifier::spinoff_prover]
fn ins_cell(
    left: AffNode,
    mat_score: i64,
    mism: i64,
    gap_open: i64,
    gap_extend: i64,
    Ghost(xs): Ghost<Seq<u8>>,
    Ghost(ys): Ghost<Seq<u8>>,
    Ghost(i): Ghost<int>,
    Ghost(j): Ghost<int>,
) -> (r: AffCell)
    requires
        xs.len() + ys.len() <= 0x4000_0000,
        -SCORE_BOUND <= mat_score <= SCORE_BOUND,
        -SCORE_BOUND <= mism <= SCORE_BOUND,
        -SCORE_BOUND <= gap_open <= SCORE_BOUND,
        -SCORE_BOUND <= gap_extend <= SCORE_BOUND,
        1 <= i <= xs.len(),
        1 <= j <= ys.len(),
        node_ok(
            xs,
            ys,
            mat_score as int,
            mism as int,
            gap_open as int,
            gap_extend as int,
            i,
            j - 1,
            left,
        ),
    ensures
        cell_i_ok(
            xs,
            ys,
            mat_score as int,
            mism as int,
            gap_open as int,
            gap_extend as int,
            i,
            j,
            r,
        ),
{
    proof {
        let ma = mat_score as int;
        let mi = mism as int;
        let go = gap_open as int;
        let ge = gap_extend as int;
        lemma_ga_shape(xs, ys, ma, mi, go, ge, i as nat, (j - 1) as nat);
        lemma_ga_bounds(xs, ys, ma, mi, go, ge, i as nat, (j - 1) as nat);
        assert(0 < SCORE_BOUND * ((i + j) as int) <= SCORE_BOUND * ((xs.len()
            + ys.len()) as int)) by (nonlinear_arith)
            requires
                1 <= i + j <= xs.len() + ys.len(),
                SCORE_BOUND > 0,
        ;
    }
    let c_im = left.mat.score + gap_open;
    let c_id = left.del.score + gap_open;
    let c_ii = left.ins.score + gap_extend;
    let mut best = c_im;
    let mut bst = AffState::Mat;
    if c_id >= best {
        best = c_id;
        bst = AffState::Del;
    }
    if c_ii >= best {
        best = c_ii;
        bst = AffState::Ins;
    }
    AffCell { score: best, prev: Some(bst) }
}

/// The operation class a script hands to whatever follows it: the class of
/// its last operation — an aligned pair where the script is empty.
pub open spec fn last_class(ops: Seq<Op>) -> Op {
    if ops.len() == 0 {
        Op::Match
    } else {
        match ops.last() {
            Op::Mismatch => Op::Match,
            o => o,
        }
    }
}

/// The class a script hands on when an operation of class `prev` stood
/// before it.
pub open spec fn chain_class(ops: Seq<Op>, prev: Op) -> Op {
    if ops.len() == 0 {
        prev
    } else {
        last_class(ops)
    }
}

/// The state a script's last operation ends in.
pub open spec fn last_state(ops: Seq<Op>) -> AffState {
    match last_class(ops) {
        Op::Del => AffState::Del,
        Op::Ins => AffState::Ins,
        _ => AffState::Mat,
    }
}

/// A valid script's score decomposes at its last operation: the head scores
/// over the shortened sequences, and the step adds the pair score of the
/// final symbols, or the opening or extension charge judged against the
/// head's own last operation.
pub proof fn lemma_affine_score_snoc(
    init: Seq<Op>,
    op: Op,
    xs: Seq<u8>,
    ys: Seq<u8>,
    mat: int,
    mism: int,
    open: int,
    ext: int,
    prev: Op,
)
    requires
        is_aligned(init.push(op), xs, ys),
    ensures
        affine_score_from(init.push(op), xs, ys, mat, mism, open, ext, prev) == (match op {
            Op::Match => affine_score_from(
                init,
                xs.drop_last(),
                ys.drop_last(),
                mat,
                mism,
                open,
                ext,
                prev,
            ) + sub_score(xs.last(), ys.last(), mat, mism),
            Op::Mismatch => affine_score_from(
                init,
                xs.drop_last(),
                ys.drop_last(),
                mat,
                mism,
                open,
                ext,
                prev,
            ) + sub_score(xs.last(), ys.last(), mat, mism),
            Op::Del => affine_score_from(init, xs.drop_last(), ys, mat, mism, open, ext, prev) + (
            if chain_class(init, prev) == Op::Del {
                ext
            } else {
                open
            }),
            Op::Ins => affine_score_from(init, xs, ys.drop_last(), mat, mism, open, ext, prev) + (
            if chain_class(init, prev) == Op::Ins {
                ext
            } else {
                open
            }),
        }),
    decreases init.len(),
{
    lemma_aligned_snoc(init, op, xs, ys);
    assert(init.push(op).len() == init.len() + 1);
    if init.len() == 0 {
        assert(init.push(op)[0] == op);
        assert(init.push(op).drop_first() =~= Seq::<Op>::empty());
        assert(chain_class(init, prev) == prev);
        match op {
            Op::Match => {
                assert(xs.last() == xs[0] && ys.last() == ys[0]);
                assert(affine_score_from(init.push(op), xs, ys, mat, mism, open, ext, prev)
                    == sub_score(xs[0], ys[0], mat, mism) + affine_score_from(
                    init.push(op).drop_first(),
                    xs.drop_first(),
                    ys.drop_first(),
                    mat,
                    mism,
                    open,
                    ext,
                    Op::Match,
                ));
                assert(affine_score_from(
                    Seq::<Op>::empty(),
                    xs.drop_first(),
                    ys.drop_first(),
                    mat,
                    mism,
                    open,
                    ext,
                    Op::Match,
                ) == 0);
                assert(affine_score_from(init, xs.drop_last(), ys.drop_last(), mat, mism, open, ext, prev)
                    == 0);
            },
            Op::Mismatch => {
                assert(xs.last() == xs[0] && ys.last() == ys[0]);
                assert(affine_score_from(init.push(op), xs, ys, mat, mism, open, ext, prev)
                    == sub_score(xs[0], ys[0], mat, mism) + affine_score_from(
                    init.push(op).drop_first(),
                    xs.drop_first(),
                    ys.drop_first(),
                    mat,
                    mism,
                    open,
                    ext,
                    Op::Match,
                ));
                assert(affine_score_from(
                    Seq::<Op>::empty(),
                    xs.drop_first(),
                    ys.drop_first(),
                    mat,
                    mism,
                    open,
                    ext,
                    Op::Match,
                ) == 0);
                assert(affine_score_from(init, xs.drop_last(), ys.drop_last(), mat, mism, open, ext, prev)
                    == 0);
            },
            Op::Ins => {
                assert(ys.last() == ys[0]);
                assert(affine_score_from(init.push(op), xs, ys, mat, mism, open, ext, prev) == (
                if prev == Op::Ins {
                    ext
                } else {
                    open
                }) + affine_score_from(
                    init.push(op).drop_first(),
                    xs,
                    ys.drop_first(),
                    mat,
                    mism,
                    open,
                    ext,
                    Op::Ins,
                ));
                assert(affine_score_from(
                    Seq::<Op>::empty(),
                    xs,
                    ys.drop_first(),
                    mat,
                    mism,
                    open,
                    ext,
                    Op::Ins,
                ) == 0);
                assert(affine_score_from(init, xs, ys.drop_last(), mat, mism, open, ext, prev) == 0);
            },
            Op::Del => {
                assert(xs.last() == xs[0]);
                assert(affine_score_from(init.push(op), xs, ys, mat, mism, open, ext, prev) == (
                if prev == Op::Del {
                    ext
                } else {
                    open
                }) + affine_score_from(
                    init.push(op).drop_first(),
                    xs.drop_first(),
                    ys,
                    mat,
                    mism,
                    open,
                    ext,
                    Op::Del,
                ));
                assert(affine_score_from(
                    Seq::<Op>::empty(),
                    xs.drop_first(),
                    ys,
                    mat,
                    mism,
                    open,
                    ext,
                    Op::Del,
                ) == 0);
                assert(affine_score_from(init, xs.drop_last(), ys, mat, mism, open, ext, prev) == 0);
            },
        }
    } else {
        let f = init[0];
        assert(init.push(op)[0] == f);
        assert(init.push(op).drop_first() =~= init.drop_first().push(op));
        let xt = if f != Op::Ins {
            xs.drop_first()
        } else {
            xs
        };
        let yt = if f != Op::Del {
            ys.drop_first()
        } else {
            ys
        };
        let fcls = if f == Op::Mismatch {
            Op::Match
        } else {
            f
        };
        lemma_affine_score_snoc(init.drop_first(), op, xt, yt, mat, mism, open, ext, fcls);
        if xs.len() >= 2 {
            assert(xs.drop_first().last() == xs.last());
            assert(xs.drop_last().drop_first() =~= xs.drop_first().drop_last());
            assert(xs.drop_last()[0] == xs[0]);
        }
        if ys.len() >= 2 {
            assert(ys.drop_first().last() == ys.last());
            assert(ys.drop_last().drop_first() =~= ys.drop_first().drop_last());
            assert(ys.drop_last()[0] == ys[0]);
        }
        if init.len() >= 2 {
            assert(init.drop_first().last() == init.last());
        } else {
            assert(init.last() == init[0]);
            assert(chain_class(init.drop_first(), fcls) == fcls);
        }
        assert(chain_class(init, prev) == chain_class(init.drop_first(), fcls));
        lemma_aligned_snoc(init.drop_first(), op, xt, yt);
        match f {
            Op::Match => {
                assert(affine_score_from(init.push(op), xs, ys, mat, mism, open, ext, prev) == sub_score(xs[0], ys[0], mat, mism) + affine_score_from(init.drop_first().push(op), xs.drop_first(), ys.drop_first(), mat, mism, open, ext, Op::Match));
                match op {
                    Op::Match => {
                        assert(xs.len() >= 2);
                        assert(ys.len() >= 2);
                        assert(affine_score_from(init, xs.drop_last(), ys.drop_last(), mat, mism, open, ext, prev) == sub_score(xs.drop_last()[0], ys.drop_last()[0], mat, mism) + affine_score_from(init.drop_first(), xs.drop_last().drop_first(), ys.drop_last().drop_first(), mat, mism, open, ext, Op::Match));
                        assert(xs.drop_last().drop_first() == xs.drop_first().drop_last());
                        assert(ys.drop_last().drop_first() == ys.drop_first().drop_last());
                    },
                    Op::Mismatch => {
                        assert(xs.len() >= 2);
                        assert(ys.len() >= 2);
                        assert(affine_score_from(init, xs.drop_last(), ys.drop_last(), mat, mism, open, ext, prev) == sub_score(xs.drop_last()[0], ys.drop_last()[0], mat, mism) + affine_score_from(init.drop_first(), xs.drop_last().drop_first(), ys.drop_last().drop_first(), mat, mism, open, ext, Op::Match));
                        assert(xs.drop_last().drop_first() == xs.drop_first().drop_last());
                        assert(ys.drop_last().drop_first() == ys.drop_first().drop_last());
                    },
                    Op::Del => {
                        assert(xs.len() >= 2);
                        assert(affine_score_from(init, xs.drop_last(), ys, mat, mism, open, ext, prev) == sub_score(xs.drop_last()[0], ys[0], mat, mism) + affine_score_from(init.drop_first(), xs.drop_last().drop_first(), ys.drop_first(), mat, mism, open, ext, Op::Match));
                        assert(xs.drop_last().drop_first() == xs.drop_first().drop_last());
                    },
                    Op::Ins => {
                        assert(ys.len() >= 2);
                        assert(affine_score_from(init, xs, ys.drop_last(), mat, mism, open, ext, prev) == sub_score(xs[0], ys.drop_last()[0], mat, mism) + affine_score_from(init.drop_first(), xs.drop_first(), ys.drop_last().drop_first(), mat, mism, open, ext, Op::Match));
                        assert(ys.drop_last().drop_first() == ys.drop_first().drop_last());
                    },
                }
            },
            Op::Mismatch => {
                assert(affine_score_from(init.push(op), xs, ys, mat, mism, open, ext, prev) == sub_score(xs[0], ys[0], mat, mism) + affine_score_from(init.drop_first().push(op), xs.drop_first(), ys.drop_first(), mat, mism, open, ext, Op::Match));
                match op {
                    Op::Match => {
                        assert(xs.len() >= 2);
                        assert(ys.len() >= 2);
                        assert(affine_score_from(init, xs.drop_last(), ys.drop_last(), mat, mism, open, ext, prev) == sub_score(xs.drop_last()[0], ys.drop_last()[0], mat, mism) + affine_score_from(init.drop_first(), xs.drop_last().drop_first(), ys.drop_last().drop_first(), mat, mism, open, ext, Op::Match));
                        assert(xs.drop_last().drop_first() == xs.drop_first().drop_last());
                        assert(ys.drop_last().drop_first() == ys.drop_first().drop_last());
                    },
                    Op::Mismatch => {
                        assert(xs.len() >= 2);
                        assert(ys.len() >= 2);
                        assert(affine_score_from(init, xs.drop_last(), ys.drop_last(), mat, mism, open, ext, prev) == sub_score(xs.drop_last()[0], ys.drop_last()[0], mat, mism) + affine_score_from(init.drop_first(), xs.drop_last().drop_first(), ys.drop_last().drop_first(), mat, mism, open, ext, Op::Match));
                        assert(xs.drop_last().drop_first() == xs.drop_first().drop_last());
                        assert(ys.drop_last().drop_first() == ys.drop_first().drop_last());
                    },
                    Op::Del => {
                        assert(xs.len() >= 2);
                        assert(affine_score_from(init, xs.drop_last(), ys, mat, mism, open, ext, prev) == sub_score(xs.drop_last()[0], ys[0], mat, mism) + affine_score_from(init.drop_first(), xs.drop_last().drop_first(), ys.drop_first(), mat, mism, open, ext, Op::Match));
                        assert(xs.drop_last().drop_first() == xs.drop_first().drop_last());
                    },
                    Op::Ins => {
                        assert(ys.len() >= 2);
                        assert(affine_score_from(init, xs, ys.drop_last(), mat, mism, open, ext, prev) == sub_score(xs[0], ys.drop_last()[0], mat, mism) + affine_score_from(init.drop_first(), xs.drop_first(), ys.drop_last().drop_first(), mat, mism, open, ext, Op::Match));
                        assert(ys.drop_last().drop_first() == ys.drop_first().drop_last());
                    },
                }
            },
            Op::Del => {
                assert(affine_score_from(init.push(op), xs, ys, mat, mism, open, ext, prev) == (if prev == Op::Del {
                    ext
                } else {
                    open
                }) + affine_score_from(init.drop_first().push(op), xs.drop_first(), ys, mat, mism, open, ext, Op::Del));
                match op {
                    Op::Match => {
                        assert(xs.len() >= 2);
                        assert(affine_score_from(init, xs.drop_last(), ys.drop_last(), mat, mism, open, ext, prev) == (if prev == Op::Del {
                    ext
                } else {
                    open
                }) + affine_score_from(init.drop_first(), xs.drop_last().drop_first(), ys.drop_last(), mat, mism, open, ext, Op::Del));
                        assert(xs.drop_last().drop_first() == xs.drop_first().drop_last());
                    },
                    Op::Mismatch => {
                        assert(xs.len() >= 2);
                        assert(affine_score_from(init, xs.drop_last(), ys.drop_last(), mat, mism, open, ext, prev) == (if prev == Op::Del {
                    ext
                } else {
                    open
                }) + affine_score_from(init.drop_first(), xs.drop_last().drop_first(), ys.drop_last(), mat, mism, open, ext, Op::Del));
                        assert(xs.drop_last().drop_first() == xs.drop_first().drop_last());
                    },
                    Op::Del => {
                        assert(xs.len() >= 2);
                        assert(affine_score_from(init, xs.drop_last(), ys, mat, mism, open, ext, prev) == (if prev == Op::Del {
                    ext
                } else {
                    open
                }) + affine_score_from(init.drop_first(), xs.drop_last().drop_first(), ys, mat, mism, open, ext, Op::Del));
                        assert(xs.drop_last().drop_first() == xs.drop_first().drop_last());
                    },
                    Op::Ins => {
                        assert(affine_score_from(init, xs, ys.drop_last(), mat, mism, open, ext, prev) == (if prev == Op::Del {
                    ext
                } else {
                    open
                }) + affine_score_from(init.drop_first(), xs.drop_first(), ys.drop_last(), mat, mism, open, ext, Op::Del));
                    },
                }
            },
            Op::Ins => {
                assert(affine_score_from(init.push(op), xs, ys, mat, mism, open, ext, prev) == (if prev == Op::Ins {
                    ext
                } else {
                    open
                }) + affine_score_from(init.drop_first().push(op), xs, ys.drop_first(), mat, mism, open, ext, Op::Ins));
                match op {
                    Op::Match => {
                        assert(ys.len() >= 2);
                        assert(affine_score_from(init, xs.drop_last(), ys.drop_last(), mat, mism, open, ext, prev) == (if prev == Op::Ins {
                    ext
                } else {
                    open
                }) + affine_score_from(init.drop_first(), xs.drop_last(), ys.drop_last().drop_first(), mat, mism, open, ext, Op::Ins));
                        assert(ys.drop_last().drop_first() == ys.drop_first().drop_last());
                    },
                    Op::Mismatch => {
                        assert(ys.len() >= 2);
                        assert(affine_score_from(init, xs.drop_last(), ys.drop_last(), mat, mism, open, ext, prev) == (if prev == Op::Ins {
                    ext
                } else {
                    open
                }) + affine_score_from(init.drop_first(), xs.drop_last(), ys.drop_last().drop_first(), mat, mism, open, ext, Op::Ins));
                        assert(ys.drop_last().drop_first() == ys.drop_first().drop_last());
                    },
                    Op::Del => {
                        assert(affine_score_from(init, xs.drop_last(), ys, mat, mism, open, ext, prev) == (if prev == Op::Ins {
                    ext
                } else {
                    open
                }) + affine_score_from(init.drop_first(), xs.drop_last(), ys.drop_first(), mat, mism, open, ext, Op::Ins));
                    },
                    Op::Ins => {
                        assert(ys.len() >= 2);
                        assert(affine_score_from(init, xs, ys.drop_last(), mat, mism, open, ext, prev) == (if prev == Op::Ins {
                    ext
                } else {
                    open
                }) + affine_score_from(init.drop_first(), xs, ys.drop_last().drop_first(), mat, mism, open, ext, Op::Ins));
                        assert(ys.drop_last().drop_first() == ys.drop_first().drop_last());
                    },
                }
            },
        }
    }
}

/// Law: no valid script scores above its end state's value in Gotoh's
/// recurrences.
pub proof fn lemma_affine_score_bound(
    ops: Seq<Op>,
    xs: Seq<u8>,
    ys: Seq<u8>,
    mat: int,
    mism: int,
    open: int,
    ext: int,
)
    requires
        is_aligned(ops, xs, ys),
    ensures
        match st_val(xs, ys, mat, mism, open, ext, last_state(ops), xs.len(), ys.len()) {
            Some(v) => affine_score(ops, xs, ys, mat, mism, open, ext) <= v,
            None => false,
        },
    decreases ops.len(),
{
    if ops.len() == 0 {
        assert(xs.len() == 0 && ys.len() == 0);
    } else {
        let init = ops.drop_last();
        let op = ops.last();
        assert(init.push(op) =~= ops);
        lemma_aligned_snoc(init, op, xs, ys);
        lemma_affine_score_snoc(init, op, xs, ys, mat, mism, open, ext, Op::Match);
        let n = xs.len();
        let m = ys.len();
        match op {
            Op::Match => {
                lemma_affine_score_bound(init, xs.drop_last(), ys.drop_last(), mat, mism, open, ext);
                assert(xs.drop_last().take(n - 1) =~= xs.take(n - 1));
                assert(ys.drop_last().take(m - 1) =~= ys.take(m - 1));
                lemma_ga_prefix(
                    xs.drop_last(),
                    ys.drop_last(),
                    xs,
                    ys,
                    mat,
                    mism,
                    open,
                    ext,
                    (n - 1) as nat,
                    (m - 1) as nat,
                );
                assert(xs[n - 1] == xs.last() && ys[m - 1] == ys.last());
            },
            Op::Mismatch => {
                lemma_affine_score_bound(init, xs.drop_last(), ys.drop_last(), mat, mism, open, ext);
                assert(xs.drop_last().take(n - 1) =~= xs.take(n - 1));
                assert(ys.drop_last().take(m - 1) =~= ys.take(m - 1));
                lemma_ga_prefix(
                    xs.drop_last(),
                    ys.drop_last(),
                    xs,
                    ys,
                    mat,
                    mism,
                    open,
                    ext,
                    (n - 1) as nat,
                    (m - 1) as nat,
                );
                assert(xs[n - 1] == xs.last() && ys[m - 1] == ys.last());
            },
            Op::Del => {
                lemma_affine_score_bound(init, xs.drop_last(), ys, mat, mism, open, ext);
                assert(xs.drop_last().take(n - 1) =~= xs.take(n - 1));
                assert(ys.take(m as int) =~= ys);
                lemma_ga_prefix(
                    xs.drop_last(),
                    ys,
                    xs,
                    ys,
                    mat,
                    mism,
                    open,
                    ext,
                    (n - 1) as nat,
                    m,
                );
                if m == 0 {
                    // against an empty second sequence the head is all
                    // deletions, so the step extends the one gap
                    crate::alignments::lemma_aligned_empty_y(init, xs.drop_last(), ys);
                    if init.len() == 0 {
                        assert(ga_d(xs, ys, mat, mism, open, ext, 1, 0) == Some(open + 0 * ext));
                    } else {
                        assert(last_class(init) == Op::Del);
                        assert(ga_d(xs, ys, mat, mism, open, ext, (n - 1) as nat, 0) == Some(
                            open + (n - 2) * ext,
                        ));
                        assert(ga_d(xs, ys, mat, mism, open, ext, n, 0) == Some(
                            open + (n - 1) * ext,
                        ));
                        assert(open + (n - 2) * ext + ext == open + (n - 1) * ext)
                            by (nonlinear_arith)
                            requires
                                n >= 2,
                        ;
                    }
                }
            },
            Op::Ins => {
                lemma_affine_score_bound(init, xs, ys.drop_last(), mat, mism, open, ext);
                assert(ys.drop_last().take(m - 1) =~= ys.take(m - 1));
                assert(xs.take(n as int) =~= xs);
                lemma_ga_prefix(
                    xs,
                    ys.drop_last(),
                    xs,
                    ys,
                    mat,
                    mism,
                    open,
                    ext,
                    n,
                    (m - 1) as nat,
                );
                if n == 0 {
                    crate::alignments::lemma_aligned_empty_x(init, xs, ys.drop_last());
                    if init.len() == 0 {
                        assert(ga_i(xs, ys, mat, mism, open, ext, 0, 1) == Some(open + 0 * ext));
                    } else {
                        assert(last_class(init) == Op::Ins);
                        assert(ga_i(xs, ys, mat, mism, open, ext, 0, (m - 1) as nat) == Some(
                            open + (m - 2) * ext,
                        ));
                        assert(ga_i(xs, ys, mat, mism, open, ext, 0, m) == Some(
                            open + (m - 1) * ext,
                        ));
                        assert(open + (m - 2) * ext + ext == open + (m - 1) * ext)
                            by (nonlinear_arith)
                            requires
                                m >= 2,
                        ;
                    }
                }
            },
        }
    }
}

/// Law: no valid script scores above the Gotoh optimum, so the solver's
/// returned script — which scores exactly that optimum — is optimal.
pub proof fn lemma_affine_score_le_best(
    ops: Seq<Op>,
    xs: Seq<u8>,
    ys: Seq<u8>,
    mat: int,
    mism: int,
    open: int,
    ext: int,
)
    requires
        is_aligned(ops, xs, ys),
    ensures
        affine_score(ops, xs, ys, mat, mism, open, ext) <= affine_best(
            xs,
            ys,
            mat,
            mism,
            open,
            ext,
        ),
{
    lemma_affine_score_bound(ops, xs, ys, mat, mism, open, ext);
}

/// Fills row `i` of the table from row `i - 1`.
#[verifier::rlimit(100)]
#[verifier::spinoff_prover]
fn fill_row(
    xs: &[u8],
    ys: &[u8],
    mat_score: i64,
    mism: i64,
    gap_open: i64,
    gap_extend: i64,
    prev_row: &Vec<AffNode>,
    i: usize,
    neg: i64,
) -> (row: Vec<AffNode>)
    requires
        xs@.len() + ys@.len() <= 0x4000_0000,
        -SCORE_BOUND <= mat_score <= SCORE_BOUND,
        -SCORE_BOUND <= mism <= SCORE_BOUND,
        -SCORE_BOUND <= gap_open <= SCORE_BOUND,
        -SCORE_BOUND <= gap_extend <= SCORE_BOUND,
        1 <= i <= xs@.len(),
        prev_row@.len() == ys@.len() + 1,
        forall|t: int|
            0 <= t <= ys@.len() ==> #[trigger] node_ok(
                xs@,
                ys@,
                mat_score as int,
                mism as int,
                gap_open as int,
                gap_extend as int,
                i - 1,
                t,
                prev_row@[t],
            ),
        neg == neg_sentinel(xs@, ys@),
    ensures
        row@.len() == ys@.len() + 1,
        forall|t: int|
            0 <= t <= ys@.len() ==> #[trigger] node_ok(
                xs@,
                ys@,
                mat_score as int,
                mism as int,
                gap_open as int,
                gap_extend as int,
                i as int,
                t,
                row@[t],
            ),
{
    let ghost ma = mat_score as int;
    let ghost mi = mism as int;
    let ghost go = gap_open as int;
    let ghost ge = gap_extend as int;
    let n = xs.len();
    let m = ys.len();
    let mut row: Vec<AffNode> = Vec::new();
    let prev0 = prev_row[0];
    proof {
        assert(node_ok(xs@, ys@, ma, mi, go, ge, i - 1, 0, prev_row@[0]));
        lemma_ga_bounds(xs@, ys@, ma, mi, go, ge, (i - 1) as nat, 0);
        lemma_ga_shape(xs@, ys@, ma, mi, go, ge, (i - 1) as nat, 0);
    }
    let border_del: i64 = if i == 1 {
        gap_open
    } else {
        prev0.del.score + gap_extend
    };
    let node0 = AffNode {
        mat: AffCell { score: neg, prev: None },
        del: AffCell { score: border_del, prev: Some(AffState::Del) },
        ins: AffCell { score: neg, prev: None },
    };
    row.push(node0);
    proof {
        assert(ga_d(xs@, ys@, ma, mi, go, ge, i as nat, 0) == Some(go + (i - 1) * ge));
        if i >= 2 {
            assert(ga_d(xs@, ys@, ma, mi, go, ge, (i - 1) as nat, 0) == Some(go + (i - 2) * ge));
            assert(go + (i - 2) * ge + ge == go + (i - 1) * ge) by (nonlinear_arith);
        }
        assert(node_ok(xs@, ys@, ma, mi, go, ge, i as int, 0, row@[0]));
    }
    let mut j: usize = 1;
    while j <= m
        invariant
            n == xs@.len(),
            m == ys@.len(),
            n + m <= 0x4000_0000,
            -SCORE_BOUND <= mat_score <= SCORE_BOUND,
            -SCORE_BOUND <= mism <= SCORE_BOUND,
            -SCORE_BOUND <= gap_open <= SCORE_BOUND,
            -SCORE_BOUND <= gap_extend <= SCORE_BOUND,
            ma == mat_score as int && mi == mism as int && go == gap_open as int && ge
                == gap_extend as int,
            1 <= i <= n,
            1 <= j <= m + 1,
            prev_row@.len() == m + 1,
            forall|t: int|
                0 <= t <= m as int ==> #[trigger] node_ok(
                    xs@,
                    ys@,
                    ma,
                    mi,
                    go,
                    ge,
                    i - 1,
                    t,
                    prev_row@[t],
                ),
            neg == neg_sentinel(xs@, ys@),
            row@.len() == j,
            forall|t: int|
                0 <= t < j ==> #[trigger] node_ok(xs@, ys@, ma, mi, go, ge, i as int, t, row@[t]),
        decreases m + 1 - j,
    {
        let x = xs[i - 1];
        let y = ys[j - 1];
        let diag = prev_row[j - 1];
        let up = prev_row[j];
        let left = row[j - 1];
        proof {
            assert(node_ok(xs@, ys@, ma, mi, go, ge, i - 1, j - 1, prev_row@[j - 1]));
            assert(node_ok(xs@, ys@, ma, mi, go, ge, i - 1, j as int, prev_row@[j as int]));
            assert(node_ok(xs@, ys@, ma, mi, go, ge, i as int, j - 1, row@[j - 1]));
        }
        let mcell = mat_cell(
            diag,
            x,
            y,
            mat_score,
            mism,
            gap_open,
            gap_extend,
            Ghost(xs@),
            Ghost(ys@),
            Ghost(i as int),
            Ghost(j as int),
        );
        let dcell = del_cell(
            up,
            mat_score,
            mism,
            gap_open,
            gap_extend,
            Ghost(xs@),
            Ghost(ys@),
            Ghost(i as int),
            Ghost(j as int),
        );
        let icell = ins_cell(
            left,
            mat_score,
            mism,
            gap_open,
            gap_extend,
            Ghost(xs@),
            Ghost(ys@),
            Ghost(i as int),
            Ghost(j as int),
        );
        row.push(AffNode { mat: mcell, del: dcell, ins: icell });
        proof {
            assert(cell_m_ok(xs@, ys@, ma, mi, go, ge, i as int, j as int, mcell));
            assert(cell_d_ok(xs@, ys@, ma, mi, go, ge, i as int, j as int, dcell));
            assert(cell_i_ok(xs@, ys@, ma, mi, go, ge, i as int, j as int, icell));
            assert(node_ok(xs@, ys@, ma, mi, go, ge, i as int, j as int, row@[j as int]));
        }
        j += 1;
    }
    row
}

/// The optimal affine-gap alignment of `xs` against `ys` under the four
/// scoring parameters: the returned score is the best over all valid edit
/// scripts as Gotoh's recurrences define it, and the returned script is a
/// valid script whose affine-gap score is exactly that value.  On equal
/// scores a later state in the order aligned-pair, deletion, insertion is
/// preferred, both per cell and at the final corner.
#[verifier::rlimit(100)]
#[verifier::spinoff_prover]
pub fn align(
    xs: &[u8],
    ys: &[u8],
    mat_score: i64,
    mism: i64,
    gap_open: i64,
    gap_extend: i64,
) -> (r: (i64, Alignment))
    requires
        xs@.len() + ys@.len() <= 0x4000_0000,
        -SCORE_BOUND <= mat_score <= SCORE_BOUND,
        -SCORE_BOUND <= mism <= SCORE_BOUND,
        -SCORE_BOUND <= gap_open <= SCORE_BOUND,
        -SCORE_BOUND <= gap_extend <= SCORE_BOUND,
    ensures
        r.0 == affine_best(
            xs@,
            ys@,
            mat_score as int,
            mism as int,
            gap_open as int,
            gap_extend as int,
        ),
        is_aligned(r.1.ops@, xs@, ys@),
        affine_score(
            r.1.ops@,
            xs@,
            ys@,
            mat_score as int,
            mism as int,
            gap_open as int,
            gap_extend as int,
        ) == r.0 as int,
        forall|other: Seq<Op>|
            #[trigger] is_aligned(other, xs@, ys@) ==> affine_score(
                other,
                xs@,
                ys@,
                mat_score as int,
                mism as int,
                gap_open as int,
                gap_extend as int,
            ) <= r.0 as int,
{
    let ghost ma = mat_score as int;
    let ghost mi = mism as int;
    let ghost go = gap_open as int;
    let ghost ge = gap_extend as int;
    let n = xs.len();
    let m = ys.len();
    let l: i64 = (n as i64) + (m as i64);
    let neg: i64 = -((2 * l + 2) * SCORE_BOUND);
    proof {
        assert(neg == neg_sentinel(xs@, ys@));
    }
    let mut rows: Vec<Vec<AffNode>> = Vec::new();
    let mut row0: Vec<AffNode> = Vec::new();
    row0.push(
        AffNode {
            mat: AffCell { score: 0, prev: None },
            del: AffCell { score: neg, prev: None },
            ins: AffCell { score: neg, prev: None },
        },
    );
    proof {
        assert(node_ok(xs@, ys@, ma, mi, go, ge, 0, 0, row0@[0]));
    }
    let mut j: usize = 1;
    while j <= m
        invariant
            n == xs@.len(),
            m == ys@.len(),
            n + m <= 0x4000_0000,
            -SCORE_BOUND <= mat_score <= SCORE_BOUND,
            -SCORE_BOUND <= mism <= SCORE_BOUND,
            -SCORE_BOUND <= gap_open <= SCORE_BOUND,
            -SCORE_BOUND <= gap_extend <= SCORE_BOUND,
            ma == mat_score as int && mi == mism as int && go == gap_open as int && ge
                == gap_extend as int,
            neg == neg_sentinel(xs@, ys@),
            1 <= j <= m + 1,
            row0@.len() == j,
            forall|t: int|
                0 <= t < j ==> #[trigger] node_ok(xs@, ys@, ma, mi, go, ge, 0, t, row0@[t]),
        decreases m + 1 - j,
    {
        let prevcell = row0[j - 1];
        proof {
            assert(node_ok(xs@, ys@, ma, mi, go, ge, 0, j - 1, row0@[j - 1]));
            lemma_ga_shape(xs@, ys@, ma, mi, go, ge, 0, (j - 1) as nat);
            lemma_ga_bounds(xs@, ys@, ma, mi, go, ge, 0, (j - 1) as nat);
            assert(0 <= SCORE_BOUND * ((j - 1) as int) <= SCORE_BOUND * ((n + m) as int))
                by (nonlinear_arith)
                requires
                    0 <= j - 1 <= n + m,
                    SCORE_BOUND > 0,
            ;
        }
        let border_ins: i64 = if j == 1 {
            gap_open
        } else {
            prevcell.ins.score + gap_extend
        };
        row0.push(
            AffNode {
                mat: AffCell { score: neg, prev: None },
                del: AffCell { score: neg, prev: None },
                ins: AffCell { score: border_ins, prev: Some(AffState::Ins) },
            },
        );
        proof {
            assert(ga_i(xs@, ys@, ma, mi, go, ge, 0, j as nat) == Some(go + (j - 1) * ge));
            if j >= 2 {
                assert(ga_i(xs@, ys@, ma, mi, go, ge, 0, (j - 1) as nat) == Some(
                    go + (j - 2) * ge,
                ));
                assert(go + (j - 2) * ge + ge == go + (j - 1) * ge) by (nonlinear_arith);
            }
            assert(node_ok(xs@, ys@, ma, mi, go, ge, 0, j as int, row0@[j as int]));
        }
        j += 1;
    }
    rows.push(row0);
    let mut i: usize = 1;
    while i <= n
        invariant
            n == xs@.len(),
            m == ys@.len(),
            n + m <= 0x4000_0000,
            -SCORE_BOUND <= mat_score <= SCORE_BOUND,
            -SCORE_BOUND <= mism <= SCORE_BOUND,
            -SCORE_BOUND <= gap_open <= SCORE_BOUND,
            -SCORE_BOUND <= gap_extend <= SCORE_BOUND,
            ma == mat_score as int && mi == mism as int && go == gap_open as int && ge
                == gap_extend as int,
            neg == neg_sentinel(xs@, ys@),
            1 <= i <= n + 1,
            rows@.len() == i,
            forall|a: int| 0 <= a < i ==> rows@[a]@.len() == m + 1,
            forall|a: int, b: int|
                0 <= a < i && 0 <= b <= m as int ==> #[trigger] node_ok(
                    xs@,
                    ys@,
                    ma,
                    mi,
                    go,
                    ge,
                    a,
                    b,
                    rows@[a]@[b],
                ),
        decreases n + 1 - i,
    {
        let row = fill_row(xs, ys, mat_score, mism, gap_open, gap_extend, &rows[i - 1], i, neg);
        rows.push(row);
        i += 1;
    }
    let corner = rows[n][m];
    proof {
        assert(node_ok(xs@, ys@, ma, mi, go, ge, n as int, m as int, rows@[n as int]@[m as int]));
        lemma_ga_shape(xs@, ys@, ma, mi, go, ge, n as nat, m as nat);
        lemma_ga_bounds(xs@, ys@, ma, mi, go, ge, n as nat, m as nat);
        assert(0 <= SCORE_BOUND * ((n + m) as int)) by (nonlinear_arith)
            requires
                SCORE_BOUND > 0,
                n + m >= 0,
        ;
    }
    let mut score0 = corner.mat.score;
    let mut st = AffState::Mat;
    if corner.del.score >= score0 {
        score0 = corner.del.score;
        st = AffState::Del;
    }
    if corner.ins.score >= score0 {
        score0 = corner.ins.score;
        st = AffState::Ins;
    }
    proof {
        assert(score0 as int == affine_best(xs@, ys@, ma, mi, go, ge));
        assert(st_val(xs@, ys@, ma, mi, go, ge, st, n as nat, m as nat) == Some(score0 as int));
        assert(xs@.skip(n as int) =~= Seq::<u8>::empty());
        assert(ys@.skip(m as int) =~= Seq::<u8>::empty());
    }
    let mut ops: Vec<Op> = Vec::new();
    let mut ci: usize = n;
    let mut cj: usize = m;
    loop
        invariant
            n == xs@.len(),
            m == ys@.len(),
            n + m <= 0x4000_0000,
            -SCORE_BOUND <= mat_score <= SCORE_BOUND,
            -SCORE_BOUND <= mism <= SCORE_BOUND,
            -SCORE_BOUND <= gap_open <= SCORE_BOUND,
            -SCORE_BOUND <= gap_extend <= SCORE_BOUND,
            ma == mat_score as int && mi == mism as int && go == gap_open as int && ge
                == gap_extend as int,
            rows@.len() == n + 1,
            forall|a: int| 0 <= a < n + 1 ==> rows@[a]@.len() == m + 1,
            forall|a: int, b: int|
                0 <= a < n + 1 && 0 <= b <= m as int ==> #[trigger] node_ok(
                    xs@,
                    ys@,
                    ma,
                    mi,
                    go,
                    ge,
                    a,
                    b,
                    rows@[a]@[b],
                ),
            score0 as int == affine_best(xs@, ys@, ma, mi, go, ge),
            ci <= n,
            cj <= m,
            (ci == 0 && cj == 0) || (st_val(xs@, ys@, ma, mi, go, ge, st, ci as nat, cj as nat)
                is Some),
            is_aligned(ops@.reverse(), xs@.skip(ci as int), ys@.skip(cj as int)),
            (if ci == 0 && cj == 0 {
                score0 as int == affine_score_from(ops@.reverse(), xs@, ys@, ma, mi, go, ge, Op::Match)
            } else {
                match st_val(xs@, ys@, ma, mi, go, ge, st, ci as nat, cj as nat) {
                    Some(v) => score0 as int == v + affine_score_from(
                        ops@.reverse(),
                        xs@.skip(ci as int),
                        ys@.skip(cj as int),
                        ma,
                        mi,
                        go,
                        ge,
                        class_of(st),
                    ),
                    None => false,
                }
            }),
        ensures
            ci == 0 && cj == 0,
            score0 as int == affine_score_from(ops@.reverse(), xs@, ys@, ma, mi, go, ge, Op::Match),
            is_aligned(ops@.reverse(), xs@, ys@),
        decreases ci + cj,
    {
        let node = rows[ci][cj];
        let cell = match st {
            AffState::Mat => node.mat,
            AffState::Del => node.del,
            AffState::Ins => node.ins,
        };
        proof {
            assert(node_ok(xs@, ys@, ma, mi, go, ge, ci as int, cj as int, rows@[ci as int]@[cj as int]));
        }
        match cell.prev {
            None => {
                proof {
                    assert(ci == 0 && cj == 0);
                    assert(xs@.skip(0) =~= xs@);
                    assert(ys@.skip(0) =~= ys@);
                }
                break ;
            },
            Some(pst) => {
                let ghost old_rev = ops@.reverse();
                match st {
                    AffState::Mat => {
                        proof {
                            assert(xs@.skip(ci - 1 as int)[0] == xs@[ci - 1 as int]);
                            assert(ys@.skip(cj - 1 as int)[0] == ys@[cj - 1 as int]);
                            assert(xs@.skip(ci - 1 as int).drop_first() =~= xs@.skip(ci as int));
                            assert(ys@.skip(cj - 1 as int).drop_first() =~= ys@.skip(cj as int));
                        }
                        let op = if xs[ci - 1] == ys[cj - 1] {
                            Op::Match
                        } else {
                            Op::Mismatch
                        };
                        ops.push(op);
                        proof {
                            assert(ops@.reverse() =~= seq![op] + old_rev);
                            lemma_aligned_cons(
                                op,
                                old_rev,
                                xs@.skip(ci - 1 as int),
                                ys@.skip(cj - 1 as int),
                            );
                            lemma_score_cons(
                                op,
                                old_rev,
                                xs@.skip(ci - 1 as int),
                                ys@.skip(cj - 1 as int),
                                ma,
                                mi,
                                go,
                                ge,
                                class_of(pst),
                            );
                            lemma_ga_shape(
                                xs@,
                                ys@,
                                ma,
                                mi,
                                go,
                                ge,
                                (ci - 1) as nat,
                                (cj - 1) as nat,
                            );
                        }
                        ci -= 1;
                        cj -= 1;
                        st = pst;
                    },
                    AffState::Del => {
                        proof {
                            assert(xs@.skip(ci - 1 as int)[0] == xs@[ci - 1 as int]);
                            assert(xs@.skip(ci - 1 as int).drop_first() =~= xs@.skip(ci as int));
                        }
                        ops.push(Op::Del);
                        proof {
                            assert(ops@.reverse() =~= seq![Op::Del] + old_rev);
                            lemma_aligned_cons(
                                Op::Del,
                                old_rev,
                                xs@.skip(ci - 1 as int),
                                ys@.skip(cj as int),
                            );
                            lemma_score_cons(
                                Op::Del,
                                old_rev,
                                xs@.skip(ci - 1 as int),
                                ys@.skip(cj as int),
                                ma,
                                mi,
                                go,
                                ge,
                                class_of(pst),
                            );
                            lemma_ga_shape(xs@, ys@, ma, mi, go, ge, (ci - 1) as nat, cj as nat);
                            if ci == 1 && cj == 0 {
                                assert(xs@.skip(0) =~= xs@);
                                assert(ys@.skip(0) =~= ys@);
                            }
                        }
                        ci -= 1;
                        st = pst;
                    },
                    AffState::Ins => {
                        proof {
                            assert(ys@.skip(cj - 1 as int)[0] == ys@[cj - 1 as int]);
                            assert(ys@.skip(cj - 1 as int).drop_first() =~= ys@.skip(cj as int));
                        }
                        ops.push(Op::Ins);
                        proof {
                            assert(ops@.reverse() =~= seq![Op::Ins] + old_rev);
                            lemma_aligned_cons(
                                Op::Ins,
                                old_rev,
                                xs@.skip(ci as int),
                                ys@.skip(cj - 1 as int),
                            );
                            lemma_score_cons(
                                Op::Ins,
                                old_rev,
                                xs@.skip(ci as int),
                                ys@.skip(cj - 1 as int),
                                ma,
                                mi,
                                go,
                                ge,
                                class_of(pst),
                            );
                            lemma_ga_shape(xs@, ys@, ma, mi, go, ge, ci as nat, (cj - 1) as nat);
                            if ci == 0 && cj == 1 {
                                assert(xs@.skip(0) =~= xs@);
                                assert(ys@.skip(0) =~= ys@);
                            }
                        }
                        cj -= 1;
                        st = pst;
                    },
                }
            },
        }
    }
    proof {
        assert forall|other: Seq<Op>| #[trigger] is_aligned(other, xs@, ys@) implies affine_score(
            other,
            xs@,
            ys@,
            ma,
            mi,
            go,
            ge,
        ) <= score0 as int by {
            lemma_affine_score_le_best(other, xs@, ys@, ma, mi, go, ge);
        }
    }
    let rev = reversed_ops(&ops);
    (score0, Alignment::new(rev))
}

} // verus!
