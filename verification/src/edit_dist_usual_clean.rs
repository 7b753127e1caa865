//! The packed quadratic edit-distance solver.  Each cell keeps, in order of
//! significance, the cost, the accumulated gap-run count, the current gap
//! state and the backpointer, as one fixed-width record; choosing between
//! two cells compares whole records, so equal costs are tied by fewer gap
//! runs rather than by the fixed priority of the plain solver.

use vstd::prelude::*;
use crate::alignments::Alignment;
use crate::alignments::Op;
use crate::alignments::dist_of;
use crate::alignments::gap_open_count;
use crate::alignments::gap_runs;
use crate::alignments::gap_runs_from;
use crate::alignments::is_aligned;
use crate::alignments::lemma_aligned_cons;
use crate::alignments::reversed_ops;
use crate::distance::edit_dist_spec;
use crate::distance::lemma_edit_dist_upper;
use crate::distance::min3;
use crate::edit_dist_usual::cell_ok;

verus! {

/// The numeric code of an operation inside a packed cell, from the cell's
/// documented bit layout.
pub open spec fn op_code(op: Op) -> u8 {
    match op {
        Op::Match => 0,
        Op::Del => 1,
        Op::Ins => 2,
        Op::Mismatch => 3,
    }
}

/// The code of the backpointer byte; an absent pointer is the out-of-range
/// byte that ends the traceback.
pub open spec fn prev_code(prev: Option<Op>) -> u8 {
    match prev {
        None => 240,
        Some(op) => op_code(op),
    }
}

/// The numeric code of an operation, as the packed layout orders them.
pub fn to_u64(op: Op) -> (r: u64)
    ensures
        r == op_code(op) as u64,
{
    match op {
        Op::Match => 0,
        Op::Del => 1,
        Op::Ins => 2,
        Op::Mismatch => 3,
    }
}

/// One packed cell in record form: cost (32 bits), gap-run count (16 bits),
/// current gap state (8 bits), backpointer (8 bits), compared
/// lexicographically from the cost down.
#[derive(Debug, Clone, Copy)]
pub struct OpDist {
    pub dist: u32,
    pub num_gap: u16,
    pub on_op: Op,
    pub prev: Option<Op>,
}

/// The whole-record order of two packed cells: the cost is the dominant
/// key, then the gap-run count, then the gap-state code, then the
/// backpointer code.
pub open spec fn packed_le(a: OpDist, b: OpDist) -> bool {
    if a.dist != b.dist {
        a.dist < b.dist
    } else if a.num_gap != b.num_gap {
        a.num_gap < b.num_gap
    } else if op_code(a.on_op) != op_code(b.on_op) {
        op_code(a.on_op) < op_code(b.on_op)
    } else {
        prev_code(a.prev) <= prev_code(b.prev)
    }
}

impl OpDist {
    /// A cell with every field given.
    pub fn new(dist: u32, num_gap: u16, on_op: Op, traceback: Op) -> (r: Self)
        ensures
            r.dist == dist,
            r.num_gap == num_gap,
            r.on_op == on_op,
            r.prev == Some(traceback),
    {
        Self { dist, num_gap, on_op, prev: Some(traceback) }
    }

    /// A fresh cell: the given cost, no gap run, no gap state, and the
    /// backpointer byte that ends a traceback.
    pub fn init(init: u32) -> (r: Self)
        ensures
            r.dist == init,
            r.num_gap == 0,
            r.on_op == Op::Match,
            r.prev == None::<Op>,
    {
        Self { dist: init, num_gap: 0, on_op: Op::Match, prev: None }
    }

    /// The diagonal move: an aligned pair, costing one exactly on a
    /// mismatch, leaving any gap run.
    pub fn mat_move(self, mat: bool) -> (r: Self)
        requires
            self.dist < u32::MAX,
        ensures
            r.dist == self.dist + (if mat {
                0int
            } else {
                1int
            }),
            r.num_gap == self.num_gap,
            r.on_op == Op::Match,
            r.prev == Some(
                if mat {
                    Op::Match
                } else {
                    Op::Mismatch
                },
            ),
    {
        let dist = if mat {
            self.dist
        } else {
            self.dist + 1
        };
        Self {
            dist,
            num_gap: self.num_gap,
            on_op: Op::Match,
            prev: Some(
                if mat {
                    Op::Match
                } else {
                    Op::Mismatch
                },
            ),
        }
    }

    /// The vertical move: one deletion, opening a gap run unless one is
    /// already open on the deletion side.
    pub fn del_move(self) -> (r: Self)
        requires
            self.dist < u32::MAX,
            self.num_gap < u16::MAX,
        ensures
            r.dist == self.dist + 1,
            r.num_gap == self.num_gap + (if self.on_op == Op::Del {
                0int
            } else {
                1int
            }),
            r.on_op == Op::Del,
            r.prev == Some(Op::Del),
    {
        let num_gap = if self.on_op == Op::Del {
            self.num_gap
        } else {
            self.num_gap + 1
        };
        Self { dist: self.dist + 1, num_gap, on_op: Op::Del, prev: Some(Op::Del) }
    }

    /// The horizontal move: one insertion, the mirror of `del_move`.
    pub fn ins_move(self) -> (r: Self)
        requires
            self.dist < u32::MAX,
            self.num_gap < u16::MAX,
        ensures
            r.dist == self.dist + 1,
            r.num_gap == self.num_gap + (if self.on_op == Op::Ins {
                0int
            } else {
                1int
            }),
            r.on_op == Op::Ins,
            r.prev == Some(Op::Ins),
    {
        let num_gap = if self.on_op == Op::Ins {
            self.num_gap
        } else {
            self.num_gap + 1
        };
        Self { dist: self.dist + 1, num_gap, on_op: Op::Ins, prev: Some(Op::Ins) }
    }

    /// The smaller of two cells under the whole-record order.
    pub fn min(&self, other: Self) -> (r: Self)
        ensures
            r == (if packed_le(*self, other) {
                *self
            } else {
                other
            }),
    {
        let le: bool = if self.dist != other.dist {
            self.dist < other.dist
        } else if self.num_gap != other.num_gap {
            self.num_gap < other.num_gap
        } else if to_u64(self.on_op) != to_u64(other.on_op) {
            to_u64(self.on_op) < to_u64(other.on_op)
        } else {
            let a = match self.prev {
                None => 240u64,
                Some(op) => to_u64(op),
            };
            let b = match other.prev {
                None => 240u64,
                Some(op) => to_u64(op),
            };
            a <= b
        };
        if le {
            *self
        } else {
            other
        }
    }

    /// The gap-run count the cell carries.
    pub fn num_gaps(&self) -> (r: u32)
        ensures
            r == self.num_gap,
    {
        self.num_gap as u32
    }

    /// The cost the cell carries.
    pub fn score(&self) -> (r: u32)
        ensures
            r == self.dist,
    {
        self.dist
    }

    /// The backpointer the cell carries.
    pub fn prev_op(&self) -> (r: Option<Op>)
        ensures
            r == self.prev,
    {
        self.prev
    }
}

/// What every filled cell states, as in the plain solver, plus the bound
/// that keeps the 16-bit gap-run field from overflowing.
pub open spec fn ucell_ok(xs: Seq<u8>, ys: Seq<u8>, i: int, j: int, c: OpDist) -> bool {
    &&& cell_ok(xs, ys, i, j, (c.dist, c.prev))
    &&& c.num_gap <= c.dist
}

/// Every cell of every filled row satisfies `ucell_ok`.
pub open spec fn urows_ok(xs: Seq<u8>, ys: Seq<u8>, dp: Seq<Vec<OpDist>>) -> bool {
    forall|i: int, j: int|
        0 <= i < dp.len() && 0 <= j < dp[i]@.len() ==> #[trigger] ucell_ok(xs, ys, i, j, dp[i]@[j])
}

/// How the gap fields of a cell relate to the neighbour its backpointer
/// names: a diagonal step keeps the count and closes any gap; a gap step
/// keeps a gap already open on its own side or opens a new run.  `prev_row`
/// is the row above `row`; the first row steps only sideways and never
/// reads it.
pub open spec fn ugap_ok(prev_row: Seq<OpDist>, row: Seq<OpDist>, j: int) -> bool {
    let c = row[j];
    match c.prev {
        None => c.num_gap == 0 && c.on_op == Op::Match,
        Some(op) => match op {
            Op::Match => c.on_op == Op::Match && 0 <= j - 1 < prev_row.len() && c.num_gap
                == prev_row[j - 1].num_gap,
            Op::Mismatch => c.on_op == Op::Match && 0 <= j - 1 < prev_row.len() && c.num_gap
                == prev_row[j - 1].num_gap,
            Op::Del => c.on_op == Op::Del && 0 <= j < prev_row.len() && c.num_gap
                == prev_row[j].num_gap + (if prev_row[j].on_op == Op::Del {
                0int
            } else {
                1int
            }),
            Op::Ins => c.on_op == Op::Ins && 1 <= j && c.num_gap == row[j - 1].num_gap + (
            if row[j - 1].on_op == Op::Ins {
                0int
            } else {
                1int
            }),
        },
    }
}

/// The row above row `i` of the table; the first row has none.
pub open spec fn uprev_of(dp: Seq<Vec<OpDist>>, i: int) -> Seq<OpDist> {
    if i == 0 {
        Seq::empty()
    } else {
        dp[i - 1]@
    }
}

/// The gap fields of every cell relate to the cell's backpointer neighbour.
pub open spec fn ugaps_ok(dp: Seq<Vec<OpDist>>) -> bool {
    forall|i: int, j: int|
        0 <= i < dp.len() && 0 <= j < dp[i]@.len() ==> #[trigger] ugap_ok(uprev_of(dp, i), dp[i]@, j)
}

/// Scanning for gap runs sees of the preceding operation only whether it
/// was a deletion or an insertion.
pub proof fn lemma_gap_runs_prev_equiv(ops: Seq<Op>, p1: Option<Op>, p2: Option<Op>)
    requires
        (p1 == Some(Op::Del)) == (p2 == Some(Op::Del)),
        (p1 == Some(Op::Ins)) == (p2 == Some(Op::Ins)),
    ensures
        gap_runs_from(ops, p1) == gap_runs_from(ops, p2),
{
    if ops.len() > 0 {
        assert(gap_runs_from(ops, p1) == gap_open_count(ops[0], p1) + gap_runs_from(
            ops.drop_first(),
            Some(ops[0]),
        ));
        assert(gap_runs_from(ops, p2) == gap_open_count(ops[0], p2) + gap_runs_from(
            ops.drop_first(),
            Some(ops[0]),
        ));
    }
}

/// One traceback step of the gap accounting.
pub proof fn lemma_gap_runs_cons(op: Op, rest: Seq<Op>, prev: Option<Op>)
    ensures
        gap_runs_from(seq![op] + rest, prev) == gap_open_count(op, prev) + gap_runs_from(
            rest,
            Some(op),
        ),
{
    assert((seq![op] + rest)[0] == op);
    assert((seq![op] + rest).drop_first() =~= rest);
}

/// The unit-cost edit distance of `xs` and `ys` together with an optimal
/// edit script, found by the quadratic dynamic program over packed cells.
/// The gap-run count the packed cells accumulate is proved to equal the
/// gap-run count of the returned script.
/// Ties in cost fall to the cell with fewer accumulated gap runs, then to
/// the lower packed tag codes.  The summed input length must fit the
/// 16-bit gap-run field of a packed cell.
pub fn edit_dist(xs: &[u8], ys: &[u8]) -> (r: (u32, Alignment))
    requires
        xs@.len() + ys@.len() <= u16::MAX,
    ensures
        r.0 as nat == edit_dist_spec(xs@, ys@),
        is_aligned(r.1.ops@, xs@, ys@),
        dist_of(r.1.ops@) == r.0 as nat,
        forall|other: Seq<Op>|
            #[trigger] is_aligned(other, xs@, ys@) ==> dist_of(other) >= r.0 as nat,
{
    let n = xs.len();
    let m = ys.len();
    let mut dp: Vec<Vec<OpDist>> = Vec::new();
    let mut row0: Vec<OpDist> = Vec::new();
    proof {
        assert(xs@.take(0) =~= Seq::<u8>::empty());
        assert(ys@.take(0) =~= Seq::<u8>::empty());
    }
    row0.push(OpDist::init(0));
    let mut j: usize = 1;
    while j <= m
        invariant
            1 <= j <= m + 1,
            m == ys@.len(),
            n == xs@.len(),
            n + m <= u16::MAX,
            row0@.len() == j,
            forall|t: int| 0 <= t < j ==> #[trigger] ucell_ok(xs@, ys@, 0, t, row0@[t]),
            row0@[0].num_gap == 0 && row0@[0].on_op == Op::Match,
            forall|t: int|
                1 <= t < j ==> (#[trigger] row0@[t]).num_gap == 1 && row0@[t].on_op == Op::Ins,
            forall|t: int| 0 <= t < j ==> #[trigger] ugap_ok(Seq::empty(), row0@, t),
        decreases m + 1 - j,
    {
        proof {
            assert(xs@.take(0) =~= Seq::<u8>::empty());
            assert(ys@.take(j as int).len() == j as int);
            assert(ys@.take(j - 1 as int).len() == j - 1);
            assert(edit_dist_spec(xs@.take(0), ys@.take(j as int)) == j);
            assert(edit_dist_spec(xs@.take(0), ys@.take(j - 1 as int)) == j - 1);
        }
        let ghost old_row0 = row0@;
        row0.push(OpDist::new(j as u32, 1, Op::Ins, Op::Ins));
        proof {
            assert forall|t: int| 0 <= t < j + 1 implies #[trigger] ugap_ok(
                Seq::empty(),
                row0@,
                t,
            ) by {
                if t < j {
                    assert(ugap_ok(Seq::empty(), old_row0, t));
                    assert(row0@[t] == old_row0[t]);
                    if t >= 1 {
                        assert(row0@[t - 1] == old_row0[t - 1]);
                    }
                } else {
                    assert(row0@[t - 1] == old_row0[t - 1]);
                }
            }
        }
        j += 1;
    }
    dp.push(row0);
    let mut i: usize = 1;
    while i <= n
        invariant
            1 <= i <= n + 1,
            m == ys@.len(),
            n == xs@.len(),
            n + m <= u16::MAX,
            dp@.len() == i,
            forall|t: int| 0 <= t < i ==> dp@[t]@.len() == m + 1,
            urows_ok(xs@, ys@, dp@),
            dp@[0]@[0].num_gap == 0 && dp@[0]@[0].on_op == Op::Match,
            forall|t: int|
                1 <= t < i ==> (#[trigger] dp@[t]@[0]).num_gap == 1 && dp@[t]@[0].on_op == Op::Del,
            ugaps_ok(dp@),
        decreases n + 1 - i,
    {
        let mut row: Vec<OpDist> = Vec::new();
        proof {
            assert(ys@.take(0) =~= Seq::<u8>::empty());
            assert(xs@.take(i as int).len() == i as int);
            assert(xs@.take(i - 1 as int).len() == i - 1);
            assert(edit_dist_spec(xs@.take(i as int), ys@.take(0)) == i);
            assert(edit_dist_spec(xs@.take(i - 1 as int), ys@.take(0)) == i - 1);
        }
        row.push(OpDist::new(i as u32, 1, Op::Del, Op::Del));
        proof {
            if i >= 2 {
                assert(dp@[i - 1 as int]@[0].num_gap == 1 && dp@[i - 1 as int]@[0].on_op
                    == Op::Del);
            }
            assert(ugap_ok(dp@[i - 1 as int]@, row@, 0));
        }
        let mut j: usize = 1;
        while j <= m
            invariant
                1 <= i <= n,
                1 <= j <= m + 1,
                m == ys@.len(),
                n == xs@.len(),
                n + m <= u16::MAX,
                dp@.len() == i,
                forall|t: int| 0 <= t < i ==> dp@[t]@.len() == m + 1,
                urows_ok(xs@, ys@, dp@),
                dp@[0]@[0].num_gap == 0 && dp@[0]@[0].on_op == Op::Match,
                forall|t: int|
                    1 <= t < i ==> (#[trigger] dp@[t]@[0]).num_gap == 1 && dp@[t]@[0].on_op
                        == Op::Del,
                ugaps_ok(dp@),
                row@.len() == j,
                forall|t: int| 0 <= t < j ==> #[trigger] ucell_ok(xs@, ys@, i as int, t, row@[t]),
                row@[0].num_gap == 1 && row@[0].on_op == Op::Del,
                forall|t: int| 0 <= t < j ==> #[trigger] ugap_ok(dp@[i - 1 as int]@, row@, t),
            decreases m + 1 - j,
        {
            let x = xs[i - 1];
            let y = ys[j - 1];
            let diag = dp[i - 1][j - 1];
            let above = dp[i - 1][j];
            let left = row[j - 1];
            proof {
                assert(ucell_ok(xs@, ys@, i - 1 as int, j - 1 as int, diag));
                assert(ucell_ok(xs@, ys@, i - 1 as int, j as int, above));
                assert(ucell_ok(xs@, ys@, i as int, j - 1 as int, left));
                lemma_edit_dist_upper(xs@.take(i - 1 as int), ys@.take(j - 1 as int));
                lemma_edit_dist_upper(xs@.take(i - 1 as int), ys@.take(j as int));
                lemma_edit_dist_upper(xs@.take(i as int), ys@.take(j - 1 as int));
                assert(xs@.take(i as int).drop_last() =~= xs@.take(i - 1 as int));
                assert(ys@.take(j as int).drop_last() =~= ys@.take(j - 1 as int));
                assert(xs@.take(i as int).last() == xs@[i - 1 as int]);
                assert(ys@.take(j as int).last() == ys@[j - 1 as int]);
            }
            let mat_score = diag.mat_move(x == y);
            let del_score = above.del_move();
            let ins_score = left.ins_move();
            let cell = mat_score.min(del_score).min(ins_score);
            proof {
                assert(edit_dist_spec(xs@.take(i as int), ys@.take(j as int)) == min3(
                    edit_dist_spec(xs@.take(i - 1 as int), ys@.take(j - 1 as int)) + (
                    if xs@[i - 1 as int] == ys@[j - 1 as int] {
                        0nat
                    } else {
                        1nat
                    }),
                    edit_dist_spec(xs@.take(i as int), ys@.take(j - 1 as int)) + 1,
                    edit_dist_spec(xs@.take(i - 1 as int), ys@.take(j as int)) + 1,
                ));
                assert(cell == mat_score || cell == del_score || cell == ins_score);
                assert(cell.dist <= mat_score.dist && cell.dist <= del_score.dist && cell.dist
                    <= ins_score.dist);
                assert(ucell_ok(xs@, ys@, i as int, j as int, cell));
            }
            let ghost old_row = row@;
            row.push(cell);
            proof {
                assert forall|t: int| 0 <= t < j + 1 implies #[trigger] ugap_ok(
                    dp@[i - 1 as int]@,
                    row@,
                    t,
                ) by {
                    if t < j {
                        assert(ugap_ok(dp@[i - 1 as int]@, old_row, t));
                        assert(row@[t] == old_row[t]);
                        if t >= 1 {
                            assert(row@[t - 1] == old_row[t - 1]);
                        }
                    } else {
                        assert(row@[t - 1] == old_row[t - 1]);
                        assert(cell == mat_score || cell == del_score || cell == ins_score);
                    }
                }
            }
            j += 1;
        }
        let ghost dp_old = dp@;
        dp.push(row);
        proof {
            assert forall|a: int, b: int|
                0 <= a < dp@.len() && 0 <= b < dp@[a]@.len() implies #[trigger] ucell_ok(
                xs@,
                ys@,
                a,
                b,
                dp@[a]@[b],
            ) by {
                if a < i {
                    assert(ucell_ok(xs@, ys@, a, b, dp@[a]@[b]));
                } else {
                    assert(ucell_ok(xs@, ys@, i as int, b, row@[b]));
                }
            }
            assert forall|a: int, b: int|
                0 <= a < dp@.len() && 0 <= b < dp@[a]@.len() implies #[trigger] ugap_ok(
                uprev_of(dp@, a),
                dp@[a]@,
                b,
            ) by {
                if a < i {
                    assert(uprev_of(dp@, a) == uprev_of(dp_old, a));
                    assert(ugap_ok(uprev_of(dp_old, a), dp_old[a]@, b));
                } else {
                    assert(uprev_of(dp@, a) == dp_old[i - 1 as int]@);
                    assert(ugap_ok(dp_old[i - 1 as int]@, row@, b));
                }
            }
            assert(ugaps_ok(dp@));
        }
        i += 1;
    }
    let last = dp[n][m];
    let dist = last.score();
    proof {
        assert(ucell_ok(xs@, ys@, n as int, m as int, dp@[n as int]@[m as int]));
        assert(xs@.take(n as int) =~= xs@);
        assert(ys@.take(m as int) =~= ys@);
        assert(xs@.skip(n as int) =~= Seq::<u8>::empty());
        assert(ys@.skip(m as int) =~= Seq::<u8>::empty());
    }
    let mut ops: Vec<Op> = Vec::new();
    proof {
        assert(ops@.reverse() =~= Seq::<Op>::empty());
        assert(gap_runs_from(Seq::<Op>::empty(), Some(dp@[n as int]@[m as int].on_op)) == 0);
    }
    let mut xpos: usize = n;
    let mut ypos: usize = m;
    loop
        invariant
            xpos <= n,
            ypos <= m,
            n == xs@.len(),
            m == ys@.len(),
            dp@.len() == n + 1,
            forall|t: int| 0 <= t < n + 1 ==> dp@[t]@.len() == m + 1,
            urows_ok(xs@, ys@, dp@),
            ugaps_ok(dp@),
            dist as nat == edit_dist_spec(xs@, ys@),
            is_aligned(ops@.reverse(), xs@.skip(xpos as int), ys@.skip(ypos as int)),
            dist as nat == dist_of(ops@.reverse()) + dp@[xpos as int]@[ypos as int].dist,
            dp@[n as int]@[m as int].num_gap == dp@[xpos as int]@[ypos as int].num_gap
                + gap_runs_from(ops@.reverse(), Some(dp@[xpos as int]@[ypos as int].on_op)),
        ensures
            is_aligned(ops@.reverse(), xs@, ys@),
            dist as nat == dist_of(ops@.reverse()),
            dp@[n as int]@[m as int].num_gap == gap_runs(ops@.reverse()),
        decreases xpos + ypos,
    {
        let c = dp[xpos][ypos];
        proof {
            assert(ucell_ok(xs@, ys@, xpos as int, ypos as int, c));
            assert(ugap_ok(uprev_of(dp@, xpos as int), dp@[xpos as int]@, ypos as int));
        }
        match c.prev_op() {
            None => {
                proof {
                    assert(xpos == 0 && ypos == 0);
                    assert(xs@.take(0) =~= Seq::<u8>::empty());
                    assert(ys@.take(0) =~= Seq::<u8>::empty());
                    assert(c.dist == 0);
                    assert(xs@.skip(0) =~= xs@);
                    assert(ys@.skip(0) =~= ys@);
                    assert(ugap_ok(uprev_of(dp@, 0), dp@[0]@, 0));
                    lemma_gap_runs_prev_equiv(ops@.reverse(), Some(Op::Match), None::<Op>);
                }
                break ;
            },
            Some(op) => {
                let ghost old_rev = ops@.reverse();
                ops.push(op);
                proof {
                    assert(ops@.reverse() =~= seq![op] + old_rev);
                }
                match op {
                    Op::Match => {
                        proof {
                            assert(xs@.skip(xpos - 1 as int)[0] == xs@[xpos - 1 as int]);
                            assert(ys@.skip(ypos - 1 as int)[0] == ys@[ypos - 1 as int]);
                            assert(xs@.skip(xpos - 1 as int).drop_first() =~= xs@.skip(
                                xpos as int,
                            ));
                            assert(ys@.skip(ypos - 1 as int).drop_first() =~= ys@.skip(
                                ypos as int,
                            ));
                            lemma_aligned_cons(
                                op,
                                old_rev,
                                xs@.skip(xpos - 1 as int),
                                ys@.skip(ypos - 1 as int),
                            );
                            assert(ucell_ok(
                                xs@,
                                ys@,
                                xpos - 1 as int,
                                ypos - 1 as int,
                                dp@[xpos - 1 as int]@[ypos - 1 as int],
                            ));
                            lemma_gap_runs_cons(
                                op,
                                old_rev,
                                Some(dp@[xpos - 1 as int]@[ypos - 1 as int].on_op),
                            );
                        }
                        xpos -= 1;
                        ypos -= 1;
                    },
                    Op::Mismatch => {
                        proof {
                            assert(xs@.skip(xpos - 1 as int)[0] == xs@[xpos - 1 as int]);
                            assert(ys@.skip(ypos - 1 as int)[0] == ys@[ypos - 1 as int]);
                            assert(xs@.skip(xpos - 1 as int).drop_first() =~= xs@.skip(
                                xpos as int,
                            ));
                            assert(ys@.skip(ypos - 1 as int).drop_first() =~= ys@.skip(
                                ypos as int,
                            ));
                            lemma_aligned_cons(
                                op,
                                old_rev,
                                xs@.skip(xpos - 1 as int),
                                ys@.skip(ypos - 1 as int),
                            );
                            assert(ucell_ok(
                                xs@,
                                ys@,
                                xpos - 1 as int,
                                ypos - 1 as int,
                                dp@[xpos - 1 as int]@[ypos - 1 as int],
                            ));
                            lemma_gap_runs_cons(
                                op,
                                old_rev,
                                Some(dp@[xpos - 1 as int]@[ypos - 1 as int].on_op),
                            );
                            lemma_gap_runs_prev_equiv(old_rev, Some(op), Some(Op::Match));
                        }
                        xpos -= 1;
                        ypos -= 1;
                    },
                    Op::Ins => {
                        proof {
                            assert(ys@.skip(ypos - 1 as int)[0] == ys@[ypos - 1 as int]);
                            assert(ys@.skip(ypos - 1 as int).drop_first() =~= ys@.skip(
                                ypos as int,
                            ));
                            lemma_aligned_cons(
                                op,
                                old_rev,
                                xs@.skip(xpos as int),
                                ys@.skip(ypos - 1 as int),
                            );
                            assert(ucell_ok(
                                xs@,
                                ys@,
                                xpos as int,
                                ypos - 1 as int,
                                dp@[xpos as int]@[ypos - 1 as int],
                            ));
                            lemma_gap_runs_cons(
                                op,
                                old_rev,
                                Some(dp@[xpos as int]@[ypos - 1 as int].on_op),
                            );
                        }
                        ypos -= 1;
                    },
                    Op::Del => {
                        proof {
                            assert(xs@.skip(xpos - 1 as int)[0] == xs@[xpos - 1 as int]);
                            assert(xs@.skip(xpos - 1 as int).drop_first() =~= xs@.skip(
                                xpos as int,
                            ));
                            lemma_aligned_cons(
                                op,
                                old_rev,
                                xs@.skip(xpos - 1 as int),
                                ys@.skip(ypos as int),
                            );
                            assert(ucell_ok(
                                xs@,
                                ys@,
                                xpos - 1 as int,
                                ypos as int,
                                dp@[xpos - 1 as int]@[ypos as int],
                            ));
                            lemma_gap_runs_cons(
                                op,
                                old_rev,
                                Some(dp@[xpos - 1 as int]@[ypos as int].on_op),
                            );
                        }
                        xpos -= 1;
                    },
                }
            },
        }
    }
    let rev = reversed_ops(&ops);
    proof {
        assert(gap_runs(rev@) == dp@[n as int]@[m as int].num_gap);
        assert forall|other: Seq<Op>| #[trigger] is_aligned(other, xs@, ys@) implies dist_of(other)
            >= dist as nat by {
            crate::distance::lemma_aligned_cost_ge(other, xs@, ys@);
        }
    }
    (dist, Alignment::new(rev))
}

} // verus!
