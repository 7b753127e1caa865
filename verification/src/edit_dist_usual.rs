//! The quadratic edit-distance solver: the classic dynamic program over
//! unit costs, with backpointer traceback.

use vstd::prelude::*;
use crate::alignments::Alignment;
use crate::alignments::Op;
use crate::alignments::dist_of;
use crate::alignments::is_aligned;
use crate::alignments::lemma_aligned_cons;
use crate::alignments::reversed_ops;
use crate::distance::edit_dist_spec;
use crate::distance::lemma_edit_dist_upper;
use crate::distance::min3;

verus! {

/// What every filled cell states: its value is the edit distance of the two
/// prefixes `xs[..i]` and `ys[..j]`, and its backpointer records one legal
/// last step consistent with that value.
pub open spec fn cell_ok(xs: Seq<u8>, ys: Seq<u8>, i: int, j: int, c: (u32, Option<Op>)) -> bool {
    &&& c.0 as nat == edit_dist_spec(xs.take(i), ys.take(j))
    &&& match c.1 {
        None => i == 0 && j == 0,
        Some(op) => match op {
            Op::Match => 1 <= i && 1 <= j && xs[i - 1] == ys[j - 1] && c.0 as nat
                == edit_dist_spec(xs.take(i - 1), ys.take(j - 1)),
            Op::Mismatch => 1 <= i && 1 <= j && xs[i - 1] != ys[j - 1] && c.0 as nat
                == edit_dist_spec(xs.take(i - 1), ys.take(j - 1)) + 1,
            Op::Ins => 1 <= j && c.0 as nat == edit_dist_spec(xs.take(i), ys.take(j - 1)) + 1,
            Op::Del => 1 <= i && c.0 as nat == edit_dist_spec(xs.take(i - 1), ys.take(j)) + 1,
        },
    }
}

/// The fixed tie order of the plain solver, per cell: an aligned pair is
/// stored whenever it achieves the minimum, an insertion only where the
/// aligned pair is strictly dearer, and a deletion only where the aligned
/// pair and the insertion both are.
pub open spec fn tie_ok(xs: Seq<u8>, ys: Seq<u8>, i: int, j: int, c: (u32, Option<Op>)) -> bool {
    match c.1 {
        Some(Op::Ins) => 1 <= i ==> edit_dist_spec(xs.take(i - 1), ys.take(j - 1)) + (if xs[i - 1]
            == ys[j - 1] {
            0nat
        } else {
            1nat
        }) > c.0,
        Some(Op::Del) => 1 <= j ==> edit_dist_spec(xs.take(i - 1), ys.take(j - 1)) + (if xs[i - 1]
            == ys[j - 1] {
            0nat
        } else {
            1nat
        }) > c.0 && edit_dist_spec(xs.take(i), ys.take(j - 1)) + 1 > c.0,
        _ => true,
    }
}

/// A cell of the plain solver: correct value and backpointer, and the fixed
/// tie order kept.
pub open spec fn plain_cell_ok(
    xs: Seq<u8>,
    ys: Seq<u8>,
    i: int,
    j: int,
    c: (u32, Option<Op>),
) -> bool {
    cell_ok(xs, ys, i, j, c) && tie_ok(xs, ys, i, j, c)
}

/// Every cell of every filled row satisfies `cell_ok` and keeps the fixed
/// tie order.
pub open spec fn rows_ok(xs: Seq<u8>, ys: Seq<u8>, dp: Seq<Vec<(u32, Option<Op>)>>) -> bool {
    forall|i: int, j: int|
        0 <= i < dp.len() && 0 <= j < dp[i]@.len() ==> #[trigger] plain_cell_ok(
            xs,
            ys,
            i,
            j,
            dp[i]@[j],
        )
}

/// The unit-cost edit distance of `xs` and `ys` together with an optimal
/// edit script, found by the full quadratic dynamic program.  Ties among
/// equally cheap steps are broken in the fixed order match/mismatch, then
/// insertion, then deletion.
#[verifier::rlimit(100)]
#[verifier::spinoff_prover]
pub fn edit_dist(xs: &[u8], ys: &[u8]) -> (r: (u32, Alignment))
    requires
        xs@.len() + ys@.len() < u32::MAX,
    ensures
        r.0 as nat == edit_dist_spec(xs@, ys@),
        is_aligned(r.1.ops@, xs@, ys@),
        dist_of(r.1.ops@) == r.0 as nat,
        forall|other: Seq<Op>|
            #[trigger] is_aligned(other, xs@, ys@) ==> dist_of(other) >= r.0 as nat,
{
    let n = xs.len();
    let m = ys.len();
    let mut dp: Vec<Vec<(u32, Option<Op>)>> = Vec::new();
    let mut row0: Vec<(u32, Option<Op>)> = Vec::new();
    proof {
        assert(xs@.take(0) =~= Seq::<u8>::empty());
        assert(ys@.take(0) =~= Seq::<u8>::empty());
    }
    row0.push((0u32, None));
    let mut j: usize = 1;
    while j <= m
        invariant
            1 <= j <= m + 1,
            m == ys@.len(),
            n == xs@.len(),
            n + m < u32::MAX,
            row0@.len() == j,
            forall|t: int| 0 <= t < j ==> #[trigger] plain_cell_ok(xs@, ys@, 0, t, row0@[t]),
        decreases m + 1 - j,
    {
        proof {
            assert(xs@.take(0) =~= Seq::<u8>::empty());
            assert(ys@.take(j as int).len() == j as int);
            assert(ys@.take(j - 1 as int).len() == j - 1);
            assert(edit_dist_spec(xs@.take(0), ys@.take(j as int)) == j);
            assert(edit_dist_spec(xs@.take(0), ys@.take(j - 1 as int)) == j - 1);
        }
        let ghost old_row0 = row0@;
        row0.push((j as u32, Some(Op::Ins)));
        proof {
            assert forall|t: int|
                0 <= t < j + 1 implies #[trigger] plain_cell_ok(xs@, ys@, 0, t, row0@[t]) by {
                if t < j {
                    assert(row0@[t] == old_row0[t]);
                    assert(plain_cell_ok(xs@, ys@, 0, t, old_row0[t]));
                } else {
                    assert(cell_ok(xs@, ys@, 0, t, row0@[t]));
                    assert(tie_ok(xs@, ys@, 0, t, row0@[t]));
                }
            }
        }
        j += 1;
    }
    let ghost row0_snap = row0@;
    dp.push(row0);
    proof {
        assert forall|a: int, b: int|
            0 <= a < dp@.len() && 0 <= b < dp@[a]@.len() implies #[trigger] plain_cell_ok(
            xs@,
            ys@,
            a,
            b,
            dp@[a]@[b],
        ) by {
            assert(dp@[a]@ == row0_snap);
            assert(plain_cell_ok(xs@, ys@, 0, b, row0_snap[b]));
        }
        assert(rows_ok(xs@, ys@, dp@));
    }
    let mut i: usize = 1;
    while i <= n
        invariant
            1 <= i <= n + 1,
            m == ys@.len(),
            n == xs@.len(),
            n + m < u32::MAX,
            dp@.len() == i,
            forall|t: int| 0 <= t < i ==> dp@[t]@.len() == m + 1,
            rows_ok(xs@, ys@, dp@),
        decreases n + 1 - i,
    {
        let mut row: Vec<(u32, Option<Op>)> = Vec::new();
        proof {
            assert(ys@.take(0) =~= Seq::<u8>::empty());
            assert(xs@.take(i as int).len() == i as int);
            assert(xs@.take(i - 1 as int).len() == i - 1);
            assert(edit_dist_spec(xs@.take(i as int), ys@.take(0)) == i);
            assert(edit_dist_spec(xs@.take(i - 1 as int), ys@.take(0)) == i - 1);
        }
        row.push((i as u32, Some(Op::Del)));
        proof {
            assert(cell_ok(xs@, ys@, i as int, 0, row@[0]));
            assert(tie_ok(xs@, ys@, i as int, 0, row@[0]));
            assert(plain_cell_ok(xs@, ys@, i as int, 0, row@[0]));
        }
        let mut j: usize = 1;
        while j <= m
            invariant
                1 <= i <= n,
                1 <= j <= m + 1,
                m == ys@.len(),
                n == xs@.len(),
                n + m < u32::MAX,
                dp@.len() == i,
                forall|t: int| 0 <= t < i ==> dp@[t]@.len() == m + 1,
                rows_ok(xs@, ys@, dp@),
                row@.len() == j,
                forall|t: int|
                    0 <= t < j ==> #[trigger] plain_cell_ok(xs@, ys@, i as int, t, row@[t]),
            decreases m + 1 - j,
        {
            let x = xs[i - 1];
            let y = ys[j - 1];
            let diag = dp[i - 1][j - 1];
            let above = dp[i - 1][j];
            let left = row[j - 1];
            proof {
                assert(plain_cell_ok(xs@, ys@, i - 1 as int, j - 1 as int, diag));
                assert(plain_cell_ok(xs@, ys@, i - 1 as int, j as int, above));
                assert(plain_cell_ok(xs@, ys@, i as int, j - 1 as int, left));
                assert(cell_ok(xs@, ys@, i - 1 as int, j - 1 as int, diag));
                assert(cell_ok(xs@, ys@, i - 1 as int, j as int, above));
                assert(cell_ok(xs@, ys@, i as int, j - 1 as int, left));
                lemma_edit_dist_upper(xs@.take(i - 1 as int), ys@.take(j - 1 as int));
                lemma_edit_dist_upper(xs@.take(i - 1 as int), ys@.take(j as int));
                lemma_edit_dist_upper(xs@.take(i as int), ys@.take(j - 1 as int));
                assert(xs@.take(i as int).drop_last() =~= xs@.take(i - 1 as int));
                assert(ys@.take(j as int).drop_last() =~= ys@.take(j - 1 as int));
                assert(xs@.take(i as int).last() == xs@[i - 1 as int]);
                assert(ys@.take(j as int).last() == ys@[j - 1 as int]);
            }
            let sub_cost: u32 = if x != y {
                1
            } else {
                0
            };
            let mat_score = diag.0 + sub_cost;
            let ins_score = left.0 + 1;
            let del_score = above.0 + 1;
            let cell: (u32, Option<Op>) = if mat_score <= ins_score && mat_score <= del_score {
                if x == y {
                    (mat_score, Some(Op::Match))
                } else {
                    (mat_score, Some(Op::Mismatch))
                }
            } else if ins_score <= del_score {
                (ins_score, Some(Op::Ins))
            } else {
                (del_score, Some(Op::Del))
            };
            proof {
                assert(edit_dist_spec(xs@.take(i as int), ys@.take(j as int)) == min3(
                    edit_dist_spec(xs@.take(i - 1 as int), ys@.take(j - 1 as int)) + (
                    if xs@[i - 1 as int] == ys@[j - 1 as int] {
                        0nat
                    } else {
                        1nat
                    }),
                    edit_dist_spec(xs@.take(i as int), ys@.take(j - 1 as int)) + 1,
                    edit_dist_spec(xs@.take(i - 1 as int), ys@.take(j as int)) + 1,
                ));
                assert(cell_ok(xs@, ys@, i as int, j as int, cell));
                assert(tie_ok(xs@, ys@, i as int, j as int, cell));
            }
            let ghost old_row = row@;
            row.push(cell);
            proof {
                assert forall|t: int|
                    0 <= t < j + 1 implies #[trigger] plain_cell_ok(
                    xs@,
                    ys@,
                    i as int,
                    t,
                    row@[t],
                ) by {
                    if t < j {
                        assert(row@[t] == old_row[t]);
                        assert(plain_cell_ok(xs@, ys@, i as int, t, old_row[t]));
                    } else {
                        assert(row@[t] == cell);
                        assert(plain_cell_ok(xs@, ys@, i as int, t, cell));
                    }
                }
            }
            j += 1;
        }
        dp.push(row);
        proof {
            assert forall|a: int, b: int|
                0 <= a < dp@.len() && 0 <= b < dp@[a]@.len() implies #[trigger] plain_cell_ok(
                xs@,
                ys@,
                a,
                b,
                dp@[a]@[b],
            ) by {
                if a < i {
                    assert(plain_cell_ok(xs@, ys@, a, b, dp@[a]@[b]));
                } else {
                    assert(plain_cell_ok(xs@, ys@, i as int, b, row@[b]));
                }
            }
        }
        i += 1;
    }
    let last_cell = dp[n][m];
    let dist = last_cell.0;
    proof {
        assert(plain_cell_ok(xs@, ys@, n as int, m as int, dp@[n as int]@[m as int]));
        assert(cell_ok(xs@, ys@, n as int, m as int, dp@[n as int]@[m as int]));
        assert(xs@.take(n as int) =~= xs@);
        assert(ys@.take(m as int) =~= ys@);
        assert(xs@.skip(n as int) =~= Seq::<u8>::empty());
        assert(ys@.skip(m as int) =~= Seq::<u8>::empty());
    }
    let mut ops: Vec<Op> = Vec::new();
    let mut xpos: usize = n;
    let mut ypos: usize = m;
    loop
        invariant
            xpos <= n,
            ypos <= m,
            n == xs@.len(),
            m == ys@.len(),
            dp@.len() == n + 1,
            forall|t: int| 0 <= t < n + 1 ==> dp@[t]@.len() == m + 1,
            rows_ok(xs@, ys@, dp@),
            dist as nat == edit_dist_spec(xs@, ys@),
            is_aligned(ops@.reverse(), xs@.skip(xpos as int), ys@.skip(ypos as int)),
            dist as nat == dist_of(ops@.reverse()) + dp@[xpos as int]@[ypos as int].0,
        ensures
            is_aligned(ops@.reverse(), xs@, ys@),
            dist as nat == dist_of(ops@.reverse()),
        decreases xpos + ypos,
    {
        let c = dp[xpos][ypos];
        proof {
            assert(plain_cell_ok(xs@, ys@, xpos as int, ypos as int, c));
            assert(cell_ok(xs@, ys@, xpos as int, ypos as int, c));
        }
        match c.1 {
            None => {
                proof {
                    assert(xpos == 0 && ypos == 0);
                    assert(xs@.take(0) =~= Seq::<u8>::empty());
                    assert(ys@.take(0) =~= Seq::<u8>::empty());
                    assert(c.0 == 0);
                    assert(xs@.skip(0) =~= xs@);
                    assert(ys@.skip(0) =~= ys@);
                }
                break ;
            },
            Some(op) => {
                let ghost old_rev = ops@.reverse();
                ops.push(op);
                proof {
                    assert(ops@.reverse() =~= seq![op] + old_rev);
                }
                match op {
                    Op::Match => {
                        proof {
                            assert(xs@.skip(xpos - 1 as int)[0] == xs@[xpos - 1 as int]);
                            assert(ys@.skip(ypos - 1 as int)[0] == ys@[ypos - 1 as int]);
                            assert(xs@.skip(xpos - 1 as int).drop_first() =~= xs@.skip(
                                xpos as int,
                            ));
                            assert(ys@.skip(ypos - 1 as int).drop_first() =~= ys@.skip(
                                ypos as int,
                            ));
                            lemma_aligned_cons(
                                op,
                                old_rev,
                                xs@.skip(xpos - 1 as int),
                                ys@.skip(ypos - 1 as int),
                            );
                            assert(plain_cell_ok(
                                xs@,
                                ys@,
                                xpos - 1 as int,
                                ypos - 1 as int,
                                dp@[xpos - 1 as int]@[ypos - 1 as int],
                            ));
                            assert(cell_ok(
                                xs@,
                                ys@,
                                xpos - 1 as int,
                                ypos - 1 as int,
                                dp@[xpos - 1 as int]@[ypos - 1 as int],
                            ));
                        }
                        xpos -= 1;
                        ypos -= 1;
                    },
                    Op::Mismatch => {
                        proof {
                            assert(xs@.skip(xpos - 1 as int)[0] == xs@[xpos - 1 as int]);
                            assert(ys@.skip(ypos - 1 as int)[0] == ys@[ypos - 1 as int]);
                            assert(xs@.skip(xpos - 1 as int).drop_first() =~= xs@.skip(
                                xpos as int,
                            ));
                            assert(ys@.skip(ypos - 1 as int).drop_first() =~= ys@.skip(
                                ypos as int,
                            ));
                            lemma_aligned_cons(
                                op,
                                old_rev,
                                xs@.skip(xpos - 1 as int),
                                ys@.skip(ypos - 1 as int),
                            );
                            assert(plain_cell_ok(
                                xs@,
                                ys@,
                                xpos - 1 as int,
                                ypos - 1 as int,
                                dp@[xpos - 1 as int]@[ypos - 1 as int],
                            ));
                            assert(cell_ok(
                                xs@,
                                ys@,
                                xpos - 1 as int,
                                ypos - 1 as int,
                                dp@[xpos - 1 as int]@[ypos - 1 as int],
                            ));
                        }
                        xpos -= 1;
                        ypos -= 1;
                    },
                    Op::Ins => {
                        proof {
                            assert(ys@.skip(ypos - 1 as int)[0] == ys@[ypos - 1 as int]);
                            assert(ys@.skip(ypos - 1 as int).drop_first() =~= ys@.skip(
                                ypos as int,
                            ));
                            lemma_aligned_cons(
                                op,
                                old_rev,
                                xs@.skip(xpos as int),
                                ys@.skip(ypos - 1 as int),
                            );
                            assert(plain_cell_ok(
                                xs@,
                                ys@,
                                xpos as int,
                                ypos - 1 as int,
                                dp@[xpos as int]@[ypos - 1 as int],
                            ));
                            assert(cell_ok(
                                xs@,
                                ys@,
                                xpos as int,
                                ypos - 1 as int,
                                dp@[xpos as int]@[ypos - 1 as int],
                            ));
                        }
                        ypos -= 1;
                    },
                    Op::Del => {
                        proof {
                            assert(xs@.skip(xpos - 1 as int)[0] == xs@[xpos - 1 as int]);
                            assert(xs@.skip(xpos - 1 as int).drop_first() =~= xs@.skip(
                                xpos as int,
                            ));
                            lemma_aligned_cons(
                                op,
                                old_rev,
                                xs@.skip(xpos - 1 as int),
                                ys@.skip(ypos as int),
                            );
                            assert(plain_cell_ok(
                                xs@,
                                ys@,
                                xpos - 1 as int,
                                ypos as int,
                                dp@[xpos - 1 as int]@[ypos as int],
                            ));
                            assert(cell_ok(
                                xs@,
                                ys@,
                                xpos - 1 as int,
                                ypos as int,
                                dp@[xpos - 1 as int]@[ypos as int],
                            ));
                        }
                        xpos -= 1;
                    },
                }
            },
        }
    }
    proof {
        assert forall|other: Seq<Op>| #[trigger] is_aligned(other, xs@, ys@) implies dist_of(other)
            >= dist as nat by {
            crate::distance::lemma_aligned_cost_ge(other, xs@, ys@);
        }
    }
    let rev = reversed_ops(&ops);
    (dist, Alignment::new(rev))
}

} // verus!
