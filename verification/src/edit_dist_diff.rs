//! The diagonal edit-distance solver (frontier expansion): for growing edit
//! budgets it records, per diagonal, the furthest row reached, extends every
//! reach by its run of matching symbols, and stops at the first budget that
//! reaches the end of both sequences.  Cells that no legal step can reach
//! are left vacant rather than filled with out-of-range positions.

use vstd::prelude::*;
use crate::alignments::Alignment;
use crate::alignments::Op;
use crate::alignments::dist_of;
use crate::alignments::is_aligned;
use crate::alignments::lemma_aligned_cons;
use crate::alignments::lemma_self_all_match;
use crate::alignments::reversed_ops;

verus! {

/// The symbols of the two sequences agree pairwise for `len` positions
/// starting at `(i0, j0)`.
pub open spec fn snake_ok(xs: Seq<u8>, ys: Seq<u8>, i0: int, j0: int, len: int) -> bool {
    forall|t: int| 0 <= t < len ==> xs[i0 + t] == #[trigger] ys[j0 + t]
}

/// The position `(i, j)` cannot extend its run of matches: a sequence ends
/// there or the next symbols differ.
pub open spec fn maximal(xs: Seq<u8>, ys: Seq<u8>, i: int, j: int) -> bool {
    i == xs.len() || j == ys.len() || xs[i] != ys[j]
}

/// The length of the maximal run of matching symbol pairs from `(i, j)`.
pub open spec fn match_len_spec(xs: Seq<u8>, ys: Seq<u8>, i: int, j: int) -> nat
    decreases xs.len() - i,
{
    if 0 <= i < xs.len() && 0 <= j < ys.len() && xs[i] == ys[j] {
        1 + match_len_spec(xs, ys, i + 1, j + 1)
    } else {
        0
    }
}

/// The maximal run is in bounds, consists of matches, and is maximal.
pub proof fn lemma_match_len_props(xs: Seq<u8>, ys: Seq<u8>, i: int, j: int)
    requires
        0 <= i <= xs.len(),
        0 <= j <= ys.len(),
    ensures
        i + match_len_spec(xs, ys, i, j) <= xs.len(),
        j + match_len_spec(xs, ys, i, j) <= ys.len(),
        snake_ok(xs, ys, i, j, match_len_spec(xs, ys, i, j) as int),
        maximal(
            xs,
            ys,
            i + match_len_spec(xs, ys, i, j) as int,
            j + match_len_spec(xs, ys, i, j) as int,
        ),
    decreases xs.len() - i,
{
    if 0 <= i < xs.len() && 0 <= j < ys.len() && xs[i] == ys[j] {
        lemma_match_len_props(xs, ys, i + 1, j + 1);
        let ml = match_len_spec(xs, ys, i, j) as int;
        assert forall|t: int| 0 <= t < ml implies xs[i + t] == #[trigger] ys[j + t] by {
            if t > 0 {
                assert(xs[i + 1 + (t - 1)] == ys[j + 1 + (t - 1)]);
            }
        }
    }
}

/// The length of the maximal run of matching symbol pairs of `xs` from
/// `x_start` against `ys` from `y_start`.
pub(crate) fn match_len(xs: &[u8], x_start: usize, ys: &[u8], y_start: usize) -> (r: usize)
    ensures
        r == match_len_spec(xs@, ys@, x_start as int, y_start as int),
{
    if x_start >= xs.len() || y_start >= ys.len() {
        return 0;
    }
    let mut xi = x_start;
    let mut yi = y_start;
    while xi < xs.len() && yi < ys.len() && xs[xi] == ys[yi]
        invariant
            x_start <= xi <= xs@.len(),
            y_start <= yi <= ys@.len(),
            xi - x_start == yi - y_start,
            match_len_spec(xs@, ys@, x_start as int, y_start as int) == xi - x_start
                + match_len_spec(xs@, ys@, xi as int, yi as int),
        decreases xs@.len() - xi,
    {
        proof {
            assert(match_len_spec(xs@, ys@, xi as int, yi as int) == 1 + match_len_spec(
                xs@,
                ys@,
                xi + 1 as int,
                yi + 1 as int,
            ));
        }
        xi += 1;
        yi += 1;
    }
    proof {
        assert(match_len_spec(xs@, ys@, xi as int, yi as int) == 0);
    }
    xi - x_start
}

/// Whether two byte slices hold the same sequence.
pub(crate) fn slices_equal(xs: &[u8], ys: &[u8]) -> (r: bool)
    ensures
        r <==> xs@ == ys@,
{
    if xs.len() != ys.len() {
        return false;
    }
    let mut i: usize = 0;
    while i < xs.len()
        invariant
            i <= xs@.len(),
            xs@.len() == ys@.len(),
            forall|t: int| 0 <= t < i ==> xs@[t] == ys@[t],
        decreases xs@.len() - i,
    {
        if xs[i] != ys[i] {
            return false;
        }
        i += 1;
    }
    proof {
        assert(xs@ =~= ys@);
    }
    true
}

/// Prepends `count` `Match` steps to the script under construction, whose
/// collected order is the reverse of the final script, moving the suffix
/// start from `(i_hi, j_hi)` back by `count` matching positions.
pub(crate) fn push_matches(
    ops: &mut Vec<Op>,
    xs: &[u8],
    ys: &[u8],
    i_hi: usize,
    j_hi: usize,
    count: usize,
) -> (unit: ())
    requires
        count <= i_hi <= xs@.len(),
        count <= j_hi <= ys@.len(),
        snake_ok(xs@, ys@, i_hi - count, j_hi - count, count as int),
        is_aligned(old(ops)@.reverse(), xs@.skip(i_hi as int), ys@.skip(j_hi as int)),
    ensures
        is_aligned(
            final(ops)@.reverse(),
            xs@.skip(i_hi - count as int),
            ys@.skip(j_hi - count as int),
        ),
        dist_of(final(ops)@.reverse()) == dist_of(old(ops)@.reverse()),
{
    let mut t: usize = 0;
    while t < count
        invariant
            t <= count,
            count <= i_hi <= xs@.len(),
            count <= j_hi <= ys@.len(),
            snake_ok(xs@, ys@, i_hi - count as int, j_hi - count as int, count as int),
            is_aligned(ops@.reverse(), xs@.skip(i_hi - t as int), ys@.skip(j_hi - t as int)),
            dist_of(ops@.reverse()) == dist_of(old(ops)@.reverse()),
        decreases count - t,
    {
        let ghost old_rev = ops@.reverse();
        let ghost ii = i_hi - t - 1;
        let ghost jj = j_hi - t - 1;
        proof {
            assert(xs@[ii as int] == ys@[jj as int]) by {
                assert(xs@[i_hi - count + (count - t - 1)] == ys@[j_hi - count + (count - t - 1)]);
            }
            assert(xs@.skip(ii as int)[0] == xs@[ii as int]);
            assert(ys@.skip(jj as int)[0] == ys@[jj as int]);
            assert(xs@.skip(ii as int).drop_first() =~= xs@.skip(ii + 1 as int));
            assert(ys@.skip(jj as int).drop_first() =~= ys@.skip(jj + 1 as int));
        }
        ops.push(Op::Match);
        proof {
            assert(ops@.reverse() =~= seq![Op::Match] + old_rev);
            lemma_aligned_cons(Op::Match, old_rev, xs@.skip(ii as int), ys@.skip(jj as int));
        }
        t += 1;
    }
}

/// The layer that precedes layer `h` in the table, for a cell's backpointer
/// conditions; layer zero has no predecessor.
pub open spec fn prev_of(dp: Seq<Vec<Option<(usize, Option<Op>)>>>, h: int) -> Seq<
    Option<(usize, Option<Op>)>,
> {
    if h == 0 {
        Seq::empty()
    } else {
        dp[h - 1]@
    }
}

/// The reach a deletion-continuation step offers on diagonal index `g` of
/// layer `h`: the predecessor sits on the same diagonal index of the layer
/// before and one more symbol of `xs` is consumed, so its row must lie
/// strictly inside `xs`.
pub open spec fn cand_above(
    xs: Seq<u8>,
    prev: Seq<Option<(usize, Option<Op>)>>,
    h: int,
    g: int,
) -> Option<int> {
    if 0 <= g < prev.len() {
        match prev[g] {
            Some(p) => {
                let jp = p.0 as int;
                if jp + (h - 1) - g < xs.len() {
                    Some(jp)
                } else {
                    None
                }
            },
            None => None,
        }
    } else {
        None
    }
}

/// The reach a substitution step offers: the predecessor sits on the same
/// diagonal, one symbol of each sequence is consumed.
pub open spec fn cand_mat(
    xs: Seq<u8>,
    ys: Seq<u8>,
    prev: Seq<Option<(usize, Option<Op>)>>,
    h: int,
    g: int,
) -> Option<int> {
    if 1 <= g && g - 1 < prev.len() {
        match prev[g - 1] {
            Some(p) => {
                let jp = p.0 as int;
                if jp + h - g < xs.len() && jp < ys.len() {
                    Some(jp + 1)
                } else {
                    None
                }
            },
            None => None,
        }
    } else {
        None
    }
}

/// The reach an insertion step offers: one symbol of `ys` is consumed.
pub open spec fn cand_left(
    ys: Seq<u8>,
    prev: Seq<Option<(usize, Option<Op>)>>,
    h: int,
    g: int,
) -> Option<int> {
    if 2 <= g && g - 2 < prev.len() {
        match prev[g - 2] {
            Some(p) => {
                let jp = p.0 as int;
                if jp < ys.len() {
                    Some(jp + 1)
                } else {
                    None
                }
            },
            None => None,
        }
    } else {
        None
    }
}

/// An offered reach, as the mathematical integer it stands for.
pub open spec fn opt_int(o: Option<usize>) -> Option<int> {
    match o {
        Some(v) => Some(v as int),
        None => None,
    }
}

/// Where a step is offered, the cell is filled and reaches at least as far.
pub open spec fn ge_cand(cell: Option<(usize, Option<Op>)>, cand: Option<int>) -> bool {
    match cand {
        None => true,
        Some(v) => match cell {
            Some(c) => c.0 as int >= v,
            None => false,
        },
    }
}

/// What a frontier cell states.  A cell on diagonal index `g` of layer `h`
/// lies on the diagonal `k = h - g`; a reach `j` stands for the position
/// `(j + k, j)`.  A filled cell holds an in-range, snake-maximal position
/// whose backpointer records a legal step from a filled cell of the layer
/// before, followed by matches only; and a cell is filled whenever some step
/// offers it a reach, which it then dominates.
pub open spec fn dcell_ok(
    xs: Seq<u8>,
    ys: Seq<u8>,
    prev: Seq<Option<(usize, Option<Op>)>>,
    h: int,
    g: int,
    cell: Option<(usize, Option<Op>)>,
) -> bool {
    &&& ge_cand(cell, cand_above(xs, prev, h, g))
    &&& ge_cand(cell, cand_mat(xs, ys, prev, h, g))
    &&& ge_cand(cell, cand_left(ys, prev, h, g))
    &&& match cell {
        None => h >= 1,
        Some(c) => {
            let j = c.0 as int;
            let i = j + h - g;
            &&& 0 <= i <= xs.len()
            &&& 0 <= j <= ys.len()
            &&& maximal(xs, ys, i, j)
            &&& match c.1 {
                None => h == 0 && g == 0 && snake_ok(xs, ys, 0, 0, j),
                Some(op) => match op {
                    Op::Del => h >= 1 && 0 <= g < prev.len() && match prev[g] {
                        Some(p) => {
                            let jp = p.0 as int;
                            let ip = jp + (h - 1) - g;
                            &&& ip < xs.len()
                            &&& jp <= j
                            &&& snake_ok(xs, ys, ip + 1, jp, j - jp)
                        },
                        None => false,
                    },
                    Op::Mismatch => h >= 1 && 1 <= g && g - 1 < prev.len() && match prev[g - 1] {
                        Some(p) => {
                            let jp = p.0 as int;
                            let ip = jp + h - g;
                            &&& ip < xs.len()
                            &&& jp < ys.len()
                            &&& xs[ip] != ys[jp]
                            &&& jp + 1 <= j
                            &&& snake_ok(xs, ys, ip + 1, jp + 1, j - jp - 1)
                        },
                        None => false,
                    },
                    Op::Ins => h >= 1 && 2 <= g && g - 2 < prev.len() && match prev[g - 2] {
                        Some(p) => {
                            let jp = p.0 as int;
                            let ip = jp + h + 1 - g;
                            &&& jp < ys.len()
                            &&& jp + 1 <= j
                            &&& snake_ok(xs, ys, ip, jp + 1, j - jp - 1)
                        },
                        None => false,
                    },
                    Op::Match => false,
                },
            }
        },
    }
}

/// Every layer has its odd width and every cell satisfies `dcell_ok`
/// against the layer before it.
pub open spec fn layers_ok(xs: Seq<u8>, ys: Seq<u8>, dp: Seq<Vec<Option<(usize, Option<Op>)>>>) -> bool {
    &&& forall|h: int| 0 <= h < dp.len() ==> (#[trigger] dp[h]@.len()) == 2 * h + 1
    &&& forall|h: int, g: int|
        0 <= h < dp.len() && 0 <= g < dp[h]@.len() ==> #[trigger] dcell_ok(
            xs,
            ys,
            prev_of(dp, h),
            h,
            g,
            dp[h]@[g],
        )
}

/// The cell records that the end of both sequences is reached.
pub open spec fn reaches_end(
    xs: Seq<u8>,
    ys: Seq<u8>,
    cell: Option<(usize, Option<Op>)>,
    h: int,
    g: int,
) -> bool {
    match cell {
        Some(c) => c.0 == ys.len() && c.0 + h - g == xs.len(),
        None => false,
    }
}

/// The frontier advances: in the top layer `h`, the diagonal of the end
/// point — or, while it does not exist yet, the outermost diagonal leading
/// to it — is filled, with a reach that grows with `h`.
pub open spec fn frontier_progress(xs: Seq<u8>, ys: Seq<u8>, dp: Seq<Vec<Option<(usize, Option<Op>)>>>) -> bool {
    let n = xs.len() as int;
    let m = ys.len() as int;
    let kstar = n - m;
    let h = dp.len() - 1;
    if kstar >= 0 {
        if h < kstar {
            dp[h]@[0] is Some
        } else {
            match dp[h]@[h - kstar] {
                Some(c) => c.0 as int >= h - kstar,
                None => false,
            }
        }
    } else {
        if h < -kstar {
            match dp[h]@[2 * h] {
                Some(c) => c.0 as int >= h,
                None => false,
            }
        } else {
            match dp[h]@[h - kstar] {
                Some(c) => c.0 as int >= h,
                None => false,
            }
        }
    }
}

/// The best of the three offered reaches, or nothing where no step is
/// offered.  On equal reaches a deletion-continuation beats a substitution,
/// which beats an insertion.
pub fn max_three(x: Option<usize>, y: Option<usize>, z: Option<usize>) -> (r: Option<(usize, Op)>)
    ensures
        (r is None) <==> (x is None && y is None && z is None),
        match r {
            None => true,
            Some(c) => {
                &&& (match x {
                    Some(v) => v <= c.0,
                    None => true,
                })
                &&& (match y {
                    Some(v) => v <= c.0,
                    None => true,
                })
                &&& (match z {
                    Some(v) => v <= c.0,
                    None => true,
                })
                &&& (match c.1 {
                    Op::Del => x == Some(c.0),
                    Op::Mismatch => y == Some(c.0),
                    Op::Ins => z == Some(c.0),
                    _ => false,
                })
                // ties fall to a deletion-continuation, then a substitution,
                // then an insertion
                &&& (x == Some(c.0) ==> c.1 == Op::Del)
                &&& (x != Some(c.0) && y == Some(c.0) ==> c.1 == Op::Mismatch)
                &&& (x != Some(c.0) && y != Some(c.0) && z == Some(c.0) ==> c.1 == Op::Ins)
            },
        },
{
    let mut best: Option<(usize, Op)> = None;
    match x {
        Some(v) => {
            best = Some((v, Op::Del));
        },
        None => {},
    }
    match y {
        Some(v) => {
            let take = match best {
                None => true,
                Some(b) => v > b.0,
            };
            if take {
                best = Some((v, Op::Mismatch));
            }
        },
        None => {},
    }
    match z {
        Some(v) => {
            let take = match best {
                None => true,
                Some(b) => v > b.0,
            };
            if take {
                best = Some((v, Op::Ins));
            }
        },
        None => {},
    }
    best
}

/// The unit-cost edit distance of `xs` and `ys` together with a witnessing
/// edit script, found by frontier expansion over diagonals.  The reported
/// distance equals the number of non-`Match` steps of the returned script,
/// so it never undercuts the true distance; equal inputs report zero.  On
/// equal reaches the solver prefers a deletion-continuation, then a
/// substitution, then an insertion.
#[verifier::rlimit(100)]
#[verifier::spinoff_prover]
pub fn edit_dist(xs: &[u8], ys: &[u8]) -> (r: (u32, Alignment))
    requires
        xs@.len() + ys@.len() < 0x4000_0000,
    ensures
        is_aligned(r.1.ops@, xs@, ys@),
        dist_of(r.1.ops@) == r.0 as nat,
        crate::distance::edit_dist_spec(xs@, ys@) <= r.0 as nat,
        xs@ == ys@ ==> r.0 == 0,
{
    let n = xs.len();
    let m = ys.len();
    if slices_equal(xs, ys) {
        let mut ops: Vec<Op> = Vec::new();
        let mut t: usize = 0;
        while t < n
            invariant
                t <= n,
                n == xs@.len(),
                ops@.len() == t,
                forall|q: int| 0 <= q < t ==> ops@[q] == Op::Match,
            decreases n - t,
        {
            ops.push(Op::Match);
            t += 1;
        }
        proof {
            lemma_self_all_match(xs@);
            assert(ops@ =~= Seq::new(xs@.len(), |q: int| Op::Match));
            crate::distance::lemma_edit_dist_self(xs@);
        }
        return (0, Alignment::new(ops));
    }
    let s0 = match_len(xs, 0, ys, 0);
    proof {
        lemma_match_len_props(xs@, ys@, 0, 0);
    }
    let mut dp: Vec<Vec<Option<(usize, Option<Op>)>>> = Vec::new();
    let mut layer0: Vec<Option<(usize, Option<Op>)>> = Vec::new();
    layer0.push(Some((s0, None)));
    dp.push(layer0);
    let kabs: usize = if n >= m {
        n - m
    } else {
        m - n
    };
    proof {
        assert(dcell_ok(xs@, ys@, prev_of(dp@, 0), 0, 0, dp@[0]@[0]));
        assert(layers_ok(xs@, ys@, dp@));
        if s0 == m && s0 == n {
            assert forall|t: int| 0 <= t < xs@.len() implies xs@[t] == ys@[t] by {
                assert(xs@[0 + t] == ys@[0 + t]);
            }
            assert(xs@ =~= ys@);
        }
        assert(!reaches_end(xs@, ys@, dp@[0]@[0], 0, 0));
        assert(frontier_progress(xs@, ys@, dp@));
    }
    let mut found: Option<usize> = None;
    while found.is_none()
        invariant
            n == xs@.len(),
            m == ys@.len(),
            n + m < 0x4000_0000,
            kabs == (if n >= m {
                n - m
            } else {
                m - n
            }),
            !(xs@ == ys@),
            1 <= dp@.len() <= n + m + 1,
            layers_ok(xs@, ys@, dp@),
            found is None ==> frontier_progress(xs@, ys@, dp@),
            found is None ==> forall|g: int|
                0 <= g < dp@[dp@.len() - 1]@.len() ==> !(#[trigger] reaches_end(
                    xs@,
                    ys@,
                    dp@[dp@.len() - 1]@[g],
                    dp@.len() - 1,
                    g,
                )),
            match found {
                None => true,
                Some(ge) => ge < dp@[dp@.len() - 1]@.len() && reaches_end(
                    xs@,
                    ys@,
                    dp@[dp@.len() - 1]@[ge as int],
                    dp@.len() - 1,
                    ge as int,
                ),
            },
        decreases n + m + 1 - dp@.len(),
    {
        let d = dp.len();
        proof {
            // the frontier cannot be expanded past the layer that must
            // contain the end, so a fresh layer always fits the budget
            let kstar = n as int - m as int;
            let h = d - 1 as int;
            if kstar >= 0 {
                if h >= kstar {
                    let c = dp@[h]@[h - kstar];
                    assert(!reaches_end(xs@, ys@, c, h, h - kstar));
                    assert(c matches Some(cc) && cc.0 < m) by {
                        assert(dcell_ok(xs@, ys@, prev_of(dp@, h), h, h - kstar, c));
                    }
                }
            } else {
                if h >= -kstar {
                    let c = dp@[h]@[h - kstar];
                    assert(!reaches_end(xs@, ys@, c, h, h - kstar));
                    assert(c matches Some(cc) && cc.0 < m) by {
                        assert(dcell_ok(xs@, ys@, prev_of(dp@, h), h, h - kstar, c));
                    }
                } else {
                    let c = dp@[h]@[2 * h];
                    assert(c matches Some(cc) && cc.0 as int <= m) by {
                        assert(dcell_ok(xs@, ys@, prev_of(dp@, h), h, 2 * h, c));
                    }
                }
            }
            assert(d <= n + m);
        }
        let mut layer: Vec<Option<(usize, Option<Op>)>> = Vec::new();
        let width = 2 * d + 1;
        let mut g: usize = 0;
        proof {
            assert(dp@[d - 1 as int]@.len() == 2 * (d - 1) + 1);
        }
        while g < width
            invariant
                n == xs@.len(),
                m == ys@.len(),
                n + m < 0x4000_0000,
                1 <= d <= n + m,
                dp@.len() == d,
                layers_ok(xs@, ys@, dp@),
                width == 2 * d + 1,
                g <= width,
                layer@.len() == g,
                forall|t: int|
                    0 <= t < g ==> #[trigger] dcell_ok(
                        xs@,
                        ys@,
                        dp@[d - 1 as int]@,
                        d as int,
                        t,
                        layer@[t],
                    ),
            decreases width - g,
        {
            let prev_len = dp[d - 1].len();
            proof {
                assert(prev_len == 2 * (d - 1) + 1);
            }
            let from_above: Option<usize> = if g < prev_len {
                match dp[d - 1][g] {
                    Some(p) => {
                        proof {
                            assert(dcell_ok(
                                xs@,
                                ys@,
                                prev_of(dp@, d - 1 as int),
                                d - 1 as int,
                                g as int,
                                dp@[d - 1 as int]@[g as int],
                            ));
                            assert(p.0 + (d - 1) >= g);
                        }
                        if p.0 + d - 1 - g < n {
                            Some(p.0)
                        } else {
                            None
                        }
                    },
                    None => None,
                }
            } else {
                None
            };
            let from_mat: Option<usize> = if g >= 1 && g - 1 < prev_len {
                match dp[d - 1][g - 1] {
                    Some(p) => {
                        proof {
                            assert(dcell_ok(
                                xs@,
                                ys@,
                                prev_of(dp@, d - 1 as int),
                                d - 1 as int,
                                g - 1 as int,
                                dp@[d - 1 as int]@[g - 1 as int],
                            ));
                            assert(p.0 + d >= g);
                        }
                        if p.0 + d - g < n && p.0 < m {
                            Some(p.0 + 1)
                        } else {
                            None
                        }
                    },
                    None => None,
                }
            } else {
                None
            };
            let from_left: Option<usize> = if g >= 2 {
                proof {
                    assert(g - 2 < prev_len);
                }
                match dp[d - 1][g - 2] {
                    Some(p) => {
                        proof {
                            assert(dcell_ok(
                                xs@,
                                ys@,
                                prev_of(dp@, d - 1 as int),
                                d - 1 as int,
                                g - 2 as int,
                                dp@[d - 1 as int]@[g - 2 as int],
                            ));
                        }
                        if p.0 < m {
                            Some(p.0 + 1)
                        } else {
                            None
                        }
                    },
                    None => None,
                }
            } else {
                None
            };
            proof {
                assert(opt_int(from_above) == cand_above(xs@, dp@[d - 1 as int]@, d as int, g as int));
                assert(opt_int(from_mat) == cand_mat(xs@, ys@, dp@[d - 1 as int]@, d as int, g as int));
                assert(opt_int(from_left) == cand_left(ys@, dp@[d - 1 as int]@, d as int, g as int));
            }
            match max_three(from_above, from_mat, from_left) {
                None => {
                    layer.push(None);
                    proof {
                        assert(dcell_ok(
                            xs@,
                            ys@,
                            dp@[d - 1 as int]@,
                            d as int,
                            g as int,
                            layer@[g as int],
                        ));
                    }
                },
                Some(c) => {
                    let reach = c.0;
                    proof {
                        match c.1 {
                            Op::Del => {
                                assert(reach + d >= g + 1);
                            },
                            Op::Mismatch => {
                                assert(reach + d >= g + 1);
                            },
                            Op::Ins => {
                                assert(reach + d >= g);
                            },
                            _ => {
                                assert(false);
                            },
                        }
                        assert(reach + d >= g && reach + d - g <= n && reach <= m);
                    }
                    let i_mid = reach + d - g;
                    let snake = match_len(xs, i_mid, ys, reach);
                    proof {
                        lemma_match_len_props(xs@, ys@, i_mid as int, reach as int);
                    }
                    let j_new = reach + snake;
                    layer.push(Some((j_new, Some(c.1))));
                    proof {
                        assert(dcell_ok(
                            xs@,
                            ys@,
                            dp@[d - 1 as int]@,
                            d as int,
                            g as int,
                            layer@[g as int],
                        ));
                    }
                },
            }
            g += 1;
        }
        let ghost dp_old = dp@;
        dp.push(layer);
        proof {
            assert forall|h: int| 0 <= h < dp@.len() implies (#[trigger] dp@[h]@.len()) == 2 * h
                + 1 by {
                if h < d {
                    assert(dp@[h] == dp_old[h]);
                }
            }
            assert forall|h: int, g2: int|
                0 <= h < dp@.len() && 0 <= g2 < dp@[h]@.len() implies #[trigger] dcell_ok(
                xs@,
                ys@,
                prev_of(dp@, h),
                h,
                g2,
                dp@[h]@[g2],
            ) by {
                if h < d {
                    assert(prev_of(dp@, h) == prev_of(dp_old, h));
                    assert(dcell_ok(xs@, ys@, prev_of(dp_old, h), h, g2, dp_old[h]@[g2]));
                } else {
                    assert(prev_of(dp@, h) == dp_old[d - 1 as int]@);
                    assert(dcell_ok(xs@, ys@, dp_old[d - 1 as int]@, d as int, g2, dp@[h]@[g2]));
                }
            }
            assert(layers_ok(xs@, ys@, dp@));
        }
        let mut f: Option<usize> = None;
        let mut g2: usize = 0;
        while g2 < width
            invariant
                n == xs@.len(),
                m == ys@.len(),
                n + m < 0x4000_0000,
                1 <= d <= n + m,
                dp@.len() == d + 1,
                layers_ok(xs@, ys@, dp@),
                width == 2 * d + 1,
                dp@[d as int]@.len() == width,
                g2 <= width,
                match f {
                    None => forall|t: int|
                        0 <= t < g2 ==> !(#[trigger] reaches_end(
                            xs@,
                            ys@,
                            dp@[d as int]@[t],
                            d as int,
                            t,
                        )),
                    Some(ge) => ge < width && reaches_end(
                        xs@,
                        ys@,
                        dp@[d as int]@[ge as int],
                        d as int,
                        ge as int,
                    ),
                },
            decreases width - g2,
        {
            if f.is_none() {
                match dp[d][g2] {
                    Some(c) => {
                        proof {
                            assert(dcell_ok(
                                xs@,
                                ys@,
                                prev_of(dp@, d as int),
                                d as int,
                                g2 as int,
                                dp@[d as int]@[g2 as int],
                            ));
                            assert(c.0 <= m);
                        }
                        if c.0 == m && c.0 + d == n + g2 {
                            f = Some(g2);
                        }
                    },
                    None => {},
                }
            }
            g2 += 1;
        }
        found = f;
        proof {
            if found is None {
                let kstar = n as int - m as int;
                let hn = d as int;
                let prev = dp@[d - 1 as int]@;
                if kstar >= 0 {
                    if hn < kstar {
                        // the top edge diagonal continues by a deletion
                        let p = dp_old[d - 1 as int]@[0];
                        assert(p is Some);
                        assert(dcell_ok(xs@, ys@, prev_of(dp_old, d - 1 as int), d - 1 as int, 0, p));
                        assert(cand_above(xs@, prev, hn, 0) is Some);
                        assert(dcell_ok(xs@, ys@, prev, hn, 0, dp@[hn]@[0]));
                    } else if hn == kstar {
                        let p = dp_old[d - 1 as int]@[0];
                        assert(p is Some);
                        assert(dcell_ok(xs@, ys@, prev_of(dp_old, d - 1 as int), d - 1 as int, 0, p));
                        assert(cand_above(xs@, prev, hn, 0) is Some);
                        assert(dcell_ok(xs@, ys@, prev, hn, 0, dp@[hn]@[0]));
                    } else {
                        // the end diagonal advances by a substitution
                        let gs = hn - kstar;
                        let p = dp_old[d - 1 as int]@[gs - 1];
                        assert(p matches Some(pp) && pp.0 as int >= (hn - 1) - kstar);
                        assert(dcell_ok(
                            xs@,
                            ys@,
                            prev_of(dp_old, d - 1 as int),
                            d - 1 as int,
                            gs - 1,
                            p,
                        ));
                        assert(!reaches_end(xs@, ys@, p, d - 1 as int, gs - 1));
                        assert(cand_mat(xs@, ys@, prev, hn, gs) is Some);
                        assert(dcell_ok(xs@, ys@, prev, hn, gs, dp@[hn]@[gs]));
                    }
                } else {
                    if hn <= -kstar {
                        // the bottom edge diagonal continues by an insertion
                        let p = dp_old[d - 1 as int]@[2 * (d - 1) as int];
                        assert(p matches Some(pp) && pp.0 as int >= d - 1);
                        assert(dcell_ok(
                            xs@,
                            ys@,
                            prev_of(dp_old, d - 1 as int),
                            d - 1 as int,
                            2 * (d - 1) as int,
                            p,
                        ));
                        assert(cand_left(ys@, prev, hn, 2 * hn) is Some);
                        assert(dcell_ok(xs@, ys@, prev, hn, 2 * hn, dp@[hn]@[2 * hn]));
                    } else {
                        let gs = hn - kstar;
                        let p = dp_old[d - 1 as int]@[gs - 1];
                        assert(p matches Some(pp) && pp.0 as int >= hn - 1);
                        assert(dcell_ok(
                            xs@,
                            ys@,
                            prev_of(dp_old, d - 1 as int),
                            d - 1 as int,
                            gs - 1,
                            p,
                        ));
                        assert(!reaches_end(xs@, ys@, p, d - 1 as int, gs - 1));
                        assert(cand_mat(xs@, ys@, prev, hn, gs) is Some);
                        assert(dcell_ok(xs@, ys@, prev, hn, gs, dp@[hn]@[gs]));
                    }
                }
                assert(frontier_progress(xs@, ys@, dp@));
            }
        }
    }
    let dopt = dp.len() - 1;
    let gend = match found {
        Some(g) => g,
        None => {
            proof {
                assert(false);
            }
            0
        },
    };
    let mut ops: Vec<Op> = Vec::new();
    let mut h: usize = dopt;
    let mut g: usize = gend;
    proof {
        let c = dp@[dopt as int]@[gend as int];
        assert(reaches_end(xs@, ys@, c, dopt as int, gend as int));
        assert(dcell_ok(xs@, ys@, prev_of(dp@, dopt as int), dopt as int, gend as int, c));
        assert(xs@.skip(n as int) =~= Seq::<u8>::empty());
        assert(ys@.skip(m as int) =~= Seq::<u8>::empty());
    }
    loop
        invariant
            n == xs@.len(),
            m == ys@.len(),
            n + m < 0x4000_0000,
            dp@.len() == dopt + 1,
            dopt <= n + m,
            layers_ok(xs@, ys@, dp@),
            h <= dopt,
            g < dp@[h as int]@.len(),
            dp@[h as int]@[g as int] is Some,
            is_aligned(
                ops@.reverse(),
                xs@.skip(
                    (match dp@[h as int]@[g as int] {
                        Some(c) => c.0 + h - g,
                        None => 0int,
                    }),
                ),
                ys@.skip(
                    (match dp@[h as int]@[g as int] {
                        Some(c) => c.0 as int,
                        None => 0int,
                    }),
                ),
            ),
            dist_of(ops@.reverse()) == dopt - h,
        ensures
            h == 0 && g == 0,
            dp@[0]@[0] is Some,
            dp@[0]@[0] matches Some(c) && c.1 is None,
            is_aligned(
                ops@.reverse(),
                xs@.skip(
                    (match dp@[0]@[0] {
                        Some(c) => c.0 as int,
                        None => 0int,
                    }),
                ),
                ys@.skip(
                    (match dp@[0]@[0] {
                        Some(c) => c.0 as int,
                        None => 0int,
                    }),
                ),
            ),
            dist_of(ops@.reverse()) == dopt,
        decreases h,
    {
        let cell = dp[h][g];
        let c = match cell {
            Some(c) => c,
            None => {
                proof {
                    assert(false);
                }
                (0, None)
            },
        };
        proof {
            assert(dcell_ok(xs@, ys@, prev_of(dp@, h as int), h as int, g as int, cell));
            assert(c.0 + h >= g && c.0 + h - g <= n && c.0 <= m);
        }
        let j = c.0;
        let i = j + h - g;
        match c.1 {
            None => {
                proof {
                    assert(h == 0 && g == 0);
                }
                break ;
            },
            Some(op) => {
                match op {
                    Op::Del => {
                        let p = match dp[h - 1][g] {
                            Some(p) => p,
                            None => {
                                proof {
                                    assert(false);
                                }
                                (0, None)
                            },
                        };
                        let jp = p.0;
                        proof {
                            assert(dcell_ok(
                                xs@,
                                ys@,
                                prev_of(dp@, h - 1 as int),
                                h - 1 as int,
                                g as int,
                                dp@[h - 1 as int]@[g as int],
                            ));
                            assert(jp + (h - 1) >= g);
                            assert(jp <= j);
                            assert(j - jp <= i && j - jp <= j);
                        }
                        let count = j - jp;
                        push_matches(&mut ops, xs, ys, i, j, count);
                        let ghost old_rev = ops@.reverse();
                        proof {
                            let ip = i - count - 1;
                            assert(ip == jp + (h - 1) - g);
                            assert(xs@.skip(ip as int)[0] == xs@[ip as int]);
                            assert(xs@.skip(ip as int).drop_first() =~= xs@.skip(ip + 1 as int));
                        }
                        ops.push(Op::Del);
                        proof {
                            assert(ops@.reverse() =~= seq![Op::Del] + old_rev);
                            lemma_aligned_cons(
                                Op::Del,
                                old_rev,
                                xs@.skip(i - count - 1 as int),
                                ys@.skip(jp as int),
                            );
                        }
                        h -= 1;
                    },
                    Op::Mismatch => {
                        let p = match dp[h - 1][g - 1] {
                            Some(p) => p,
                            None => {
                                proof {
                                    assert(false);
                                }
                                (0, None)
                            },
                        };
                        let jp = p.0;
                        proof {
                            assert(dcell_ok(
                                xs@,
                                ys@,
                                prev_of(dp@, h - 1 as int),
                                h - 1 as int,
                                g - 1 as int,
                                dp@[h - 1 as int]@[g - 1 as int],
                            ));
                            assert(jp + h >= g);
                            assert(jp + 1 <= j);
                            assert(j - jp - 1 <= i && j - jp - 1 <= j);
                        }
                        let count = j - jp - 1;
                        push_matches(&mut ops, xs, ys, i, j, count);
                        let ghost old_rev = ops@.reverse();
                        proof {
                            let ip = i - count - 1;
                            assert(ip == jp + h - g);
                            assert(xs@.skip(ip as int)[0] == xs@[ip as int]);
                            assert(ys@.skip(jp as int)[0] == ys@[jp as int]);
                            assert(xs@.skip(ip as int).drop_first() =~= xs@.skip(ip + 1 as int));
                            assert(ys@.skip(jp as int).drop_first() =~= ys@.skip(jp + 1 as int));
                        }
                        ops.push(Op::Mismatch);
                        proof {
                            assert(ops@.reverse() =~= seq![Op::Mismatch] + old_rev);
                            lemma_aligned_cons(
                                Op::Mismatch,
                                old_rev,
                                xs@.skip(i - count - 1 as int),
                                ys@.skip(jp as int),
                            );
                        }
                        h -= 1;
                        g -= 1;
                    },
                    Op::Ins => {
                        let p = match dp[h - 1][g - 2] {
                            Some(p) => p,
                            None => {
                                proof {
                                    assert(false);
                                }
                                (0, None)
                            },
                        };
                        let jp = p.0;
                        proof {
                            assert(dcell_ok(
                                xs@,
                                ys@,
                                prev_of(dp@, h - 1 as int),
                                h - 1 as int,
                                g - 2 as int,
                                dp@[h - 1 as int]@[g - 2 as int],
                            ));
                            assert(jp + h + 1 >= g);
                            assert(jp + 1 <= j);
                            assert(j - jp - 1 <= i && j - jp - 1 <= j);
                        }
                        let count = j - jp - 1;
                        push_matches(&mut ops, xs, ys, i, j, count);
                        let ghost old_rev = ops@.reverse();
                        proof {
                            let ip = i - count;
                            assert(ip == jp + h + 1 - g);
                            assert(ys@.skip(jp as int)[0] == ys@[jp as int]);
                            assert(ys@.skip(jp as int).drop_first() =~= ys@.skip(jp + 1 as int));
                        }
                        ops.push(Op::Ins);
                        proof {
                            assert(ops@.reverse() =~= seq![Op::Ins] + old_rev);
                            lemma_aligned_cons(
                                Op::Ins,
                                old_rev,
                                xs@.skip(i - count as int),
                                ys@.skip(jp as int),
                            );
                        }
                        h -= 1;
                        g -= 2;
                    },
                    Op::Match => {
                        proof {
                            assert(false);
                        }
                    },
                }
            },
        }
    }
    let root = match dp[0][0] {
        Some(c) => c,
        None => {
            proof {
                assert(false);
            }
            (0, None)
        },
    };
    let j0 = root.0;
    proof {
        assert(dcell_ok(xs@, ys@, prev_of(dp@, 0), 0, 0, dp@[0]@[0]));
        assert(j0 <= n && j0 <= m);
        assert(snake_ok(xs@, ys@, 0, 0, j0 as int));
    }
    push_matches(&mut ops, xs, ys, j0, j0, j0);
    proof {
        assert(xs@.skip(0) =~= xs@);
        assert(ys@.skip(0) =~= ys@);
    }
    let rev = reversed_ops(&ops);
    proof {
        assert(dopt <= n + m < u32::MAX);
        crate::distance::lemma_aligned_cost_ge(rev@, xs@, ys@);
    }
    (dopt as u32, Alignment::new(rev))
}

} // verus!
