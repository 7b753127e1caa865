//! The packed diagonal edit-distance solver.  Each frontier cell keeps, in
//! order of significance, the furthest reach (32 bits), the accumulated
//! gap-run count (16 bits, ordered reversed so that fewer runs win), the
//! current gap state and the predecessor tag, as one fixed-width record;
//! the best of two cells is the larger whole record, so equal reaches are
//! tied by fewer gap runs rather than by the plain solver's fixed priority.

use vstd::prelude::*;
use crate::alignments::Alignment;
use crate::alignments::Op;
use crate::alignments::dist_of;
use crate::alignments::is_aligned;
use crate::alignments::lemma_aligned_cons;
use crate::alignments::lemma_self_all_match;
use crate::alignments::reversed_ops;
use crate::edit_dist_diff::cand_above;
use crate::edit_dist_diff::cand_left;
use crate::edit_dist_diff::cand_mat;
use crate::edit_dist_diff::dcell_ok;
use crate::edit_dist_diff::lemma_match_len_props;
use crate::edit_dist_diff::match_len;
use crate::edit_dist_diff::push_matches;
use crate::edit_dist_diff::slices_equal;
use crate::edit_dist_diff::snake_ok;
use crate::edit_dist_usual_clean::op_code;
use crate::edit_dist_usual_clean::prev_code;

verus! {

/// One packed frontier cell in record form.
#[derive(Debug, Clone, Copy)]
pub struct ReachPoint {
    pub reach: u32,
    pub gaps: u16,
    pub on: Op,
    pub trace: Option<Op>,
}

/// The whole-record order: the reach is the dominant key; on equal reaches
/// the gap-run field, stored reversed, makes fewer runs the larger record;
/// then the gap-state and predecessor codes decide.
pub open spec fn rp_lt(a: ReachPoint, b: ReachPoint) -> bool {
    if a.reach != b.reach {
        a.reach < b.reach
    } else if a.gaps != b.gaps {
        a.gaps > b.gaps
    } else if op_code(a.on) != op_code(b.on) {
        op_code(a.on) < op_code(b.on)
    } else {
        prev_code(a.trace) < prev_code(b.trace)
    }
}

/// The plain view of a packed cell: its reach and its predecessor tag.
pub open spec fn proj(cell: Option<ReachPoint>) -> Option<(usize, Option<Op>)> {
    match cell {
        Some(p) => Some((p.reach as usize, p.trace)),
        None => None,
    }
}

/// The plain view of a whole layer.
pub open spec fn proj_layer(layer: Seq<Option<ReachPoint>>) -> Seq<Option<(usize, Option<Op>)>> {
    layer.map_values(|c: Option<ReachPoint>| proj(c))
}

/// The plain view of the layer before layer `h`.
pub open spec fn rprev_of(dp: Seq<Vec<Option<ReachPoint>>>, h: int) -> Seq<
    Option<(usize, Option<Op>)>,
> {
    if h == 0 {
        Seq::empty()
    } else {
        proj_layer(dp[h - 1]@)
    }
}

/// The cell's gap-run count stays within the layer index.
pub open spec fn gaps_within(cell: Option<ReachPoint>, h: int) -> bool {
    match cell {
        Some(p) => p.gaps <= h,
        None => true,
    }
}

/// Every layer has its odd width, every cell's plain view satisfies the
/// diagonal solver's cell predicate, and every gap-run field stays within
/// the layer index, which keeps its 16 bits from overflowing.
pub open spec fn rlayers_ok(xs: Seq<u8>, ys: Seq<u8>, dp: Seq<Vec<Option<ReachPoint>>>) -> bool {
    &&& forall|h: int| 0 <= h < dp.len() ==> (#[trigger] dp[h]@.len()) == 2 * h + 1
    &&& forall|h: int, g: int|
        0 <= h < dp.len() && 0 <= g < dp[h]@.len() ==> #[trigger] dcell_ok(
            xs,
            ys,
            rprev_of(dp, h),
            h,
            g,
            proj(dp[h]@[g]),
        )
    &&& forall|h: int, g: int|
        0 <= h < dp.len() && 0 <= g < dp[h]@.len() ==> #[trigger] gaps_within(dp[h]@[g], h)
}

/// The cell records that the end of both sequences is reached.
pub open spec fn rreaches_end(
    xs: Seq<u8>,
    ys: Seq<u8>,
    cell: Option<ReachPoint>,
    h: int,
    g: int,
) -> bool {
    match cell {
        Some(p) => p.reach == ys.len() && p.reach + h - g == xs.len(),
        None => false,
    }
}

/// The frontier advances, as in the plain diagonal solver.
pub open spec fn rfrontier_progress(xs: Seq<u8>, ys: Seq<u8>, dp: Seq<Vec<Option<ReachPoint>>>) -> bool {
    let n = xs.len() as int;
    let m = ys.len() as int;
    let kstar = n - m;
    let h = dp.len() - 1;
    if kstar >= 0 {
        if h < kstar {
            dp[h]@[0] is Some
        } else {
            match dp[h]@[h - kstar] {
                Some(p) => p.reach as int >= h - kstar,
                None => false,
            }
        }
    } else {
        if h < -kstar {
            match dp[h]@[2 * h] {
                Some(p) => p.reach as int >= h,
                None => false,
            }
        } else {
            match dp[h]@[h - kstar] {
                Some(p) => p.reach as int >= h,
                None => false,
            }
        }
    }
}

impl ReachPoint {
    /// The predecessor tag the cell carries.
    pub fn trace(&self) -> (r: Option<Op>)
        ensures
            r == self.trace,
    {
        self.trace
    }

    /// A fresh root cell: the given reach, no gap run, no gap state, and the
    /// tag that ends a traceback.
    pub fn new(point: usize) -> (r: Self)
        requires
            point <= u32::MAX,
        ensures
            r.reach == point,
            r.gaps == 0,
            r.on == Op::Match,
            r.trace == None::<Op>,
    {
        ReachPoint { reach: point as u32, gaps: 0, on: Op::Match, trace: None }
    }

    /// Extends the reach by a run of matches; a non-empty run leaves any
    /// open gap.
    pub fn add(&self, len: usize) -> (r: Self)
        requires
            self.reach + len <= u32::MAX,
        ensures
            r.reach == self.reach + len,
            r.gaps == self.gaps,
            r.on == (if len > 0 {
                Op::Match
            } else {
                self.on
            }),
            r.trace == self.trace,
    {
        let on = if len > 0 {
            Op::Match
        } else {
            self.on
        };
        ReachPoint { reach: self.reach + len as u32, gaps: self.gaps, on, trace: self.trace }
    }

    /// The row the cell reaches.
    pub fn position(&self) -> (r: usize)
        ensures
            r == self.reach,
    {
        self.reach as usize
    }

    /// The deletion-continuation step: the reach stays, a gap run opens
    /// unless one is already open on the deletion side.
    pub fn from_above(&self) -> (r: Self)
        requires
            self.gaps < u16::MAX,
        ensures
            r.reach == self.reach,
            r.gaps == self.gaps + (if self.on == Op::Del {
                0int
            } else {
                1int
            }),
            r.on == Op::Del,
            r.trace == Some(Op::Del),
    {
        let gaps = if self.on == Op::Del {
            self.gaps
        } else {
            self.gaps + 1
        };
        ReachPoint { reach: self.reach, gaps, on: Op::Del, trace: Some(Op::Del) }
    }

    /// The substitution step: the reach advances by one and any gap run
    /// ends.
    pub fn from_mat(&self) -> (r: Self)
        requires
            self.reach < u32::MAX,
        ensures
            r.reach == self.reach + 1,
            r.gaps == self.gaps,
            r.on == Op::Match,
            r.trace == Some(Op::Mismatch),
    {
        ReachPoint { reach: self.reach + 1, gaps: self.gaps, on: Op::Match, trace: Some(
            Op::Mismatch,
        ) }
    }

    /// The insertion step: the reach advances by one, a gap run opens
    /// unless one is already open on the insertion side.
    pub fn from_left(&self) -> (r: Self)
        requires
            self.reach < u32::MAX,
            self.gaps < u16::MAX,
        ensures
            r.reach == self.reach + 1,
            r.gaps == self.gaps + (if self.on == Op::Ins {
                0int
            } else {
                1int
            }),
            r.on == Op::Ins,
            r.trace == Some(Op::Ins),
    {
        let gaps = if self.on == Op::Ins {
            self.gaps
        } else {
            self.gaps + 1
        };
        ReachPoint { reach: self.reach + 1, gaps, on: Op::Ins, trace: Some(Op::Ins) }
    }

    /// The larger of two cells under the whole-record order.
    pub fn max(&self, other: Self) -> (r: Self)
        ensures
            r == (if rp_lt(*self, other) {
                other
            } else {
                *self
            }),
    {
        let lt: bool = if self.reach != other.reach {
            self.reach < other.reach
        } else if self.gaps != other.gaps {
            self.gaps > other.gaps
        } else {
            let sa = crate::edit_dist_usual_clean::to_u64(self.on);
            let sb = crate::edit_dist_usual_clean::to_u64(other.on);
            if sa != sb {
                sa < sb
            } else {
                let ta = match self.trace {
                    None => 240u64,
                    Some(op) => crate::edit_dist_usual_clean::to_u64(op),
                };
                let tb = match other.trace {
                    None => 240u64,
                    Some(op) => crate::edit_dist_usual_clean::to_u64(op),
                };
                ta < tb
            }
        };
        if lt {
            other
        } else {
            *self
        }
    }
}

/// The larger of two packed cells under the whole-record order; the first
/// is kept on a full tie.
pub open spec fn rp_max(a: ReachPoint, b: ReachPoint) -> ReachPoint {
    if rp_lt(a, b) {
        b
    } else {
        a
    }
}

/// The exact cell `max_of_three` returns, pairing the offered cells as the
/// solver does.
pub open spec fn rp_best3(
    x: Option<ReachPoint>,
    y: Option<ReachPoint>,
    z: Option<ReachPoint>,
) -> Option<ReachPoint> {
    match (x, y, z) {
        (None, None, None) => None,
        (None, None, Some(c)) => Some(c),
        (None, Some(b), None) => Some(b),
        (Some(a), None, None) => Some(a),
        (None, Some(b), Some(c)) => Some(rp_max(c, b)),
        (Some(a), None, Some(c)) => Some(rp_max(a, c)),
        (Some(a), Some(b), None) => Some(rp_max(a, b)),
        (Some(a), Some(b), Some(c)) => Some(rp_max(rp_max(a, b), c)),
    }
}

/// The best of the offered cells under the whole-record order, or nothing
/// where no step is offered.
pub fn max_of_three(x: Option<ReachPoint>, y: Option<ReachPoint>, z: Option<ReachPoint>) -> (r:
    Option<ReachPoint>)
    ensures
        r == rp_best3(x, y, z),
        (r is None) <==> (x is None && y is None && z is None),
        match r {
            None => true,
            Some(c) => {
                &&& (x == Some(c) || y == Some(c) || z == Some(c))
                &&& (match x {
                    Some(v) => v.reach <= c.reach,
                    None => true,
                })
                &&& (match y {
                    Some(v) => v.reach <= c.reach,
                    None => true,
                })
                &&& (match z {
                    Some(v) => v.reach <= c.reach,
                    None => true,
                })
            },
        },
{
    match (x, y, z) {
        (None, None, Some(c)) => Some(c),
        (None, Some(b), None) => Some(b),
        (Some(a), None, None) => Some(a),
        (None, Some(b), Some(c)) => Some(c.max(b)),
        (Some(a), None, Some(c)) => Some(a.max(c)),
        (Some(a), Some(b), None) => Some(a.max(b)),
        (Some(a), Some(b), Some(c)) => Some(a.max(b).max(c)),
        (None, None, None) => None,
    }
}

/// The reach a packed candidate offers, as a mathematical integer.
pub open spec fn proj_cand(o: Option<ReachPoint>) -> Option<int> {
    match o {
        Some(p) => Some(p.reach as int),
        None => None,
    }
}

/// The position a filled cell stands for is in range and snake-maximal:
/// the part of the cell predicate that building the next layer needs.
pub open spec fn rcell_sound(
    xs: Seq<u8>,
    ys: Seq<u8>,
    h: int,
    g: int,
    cell: Option<ReachPoint>,
) -> bool {
    match cell {
        None => true,
        Some(p) => {
            let j = p.reach as int;
            let i = j + h - g;
            &&& 0 <= i <= xs.len()
            &&& 0 <= j <= ys.len()
            &&& crate::edit_dist_diff::maximal(xs, ys, i, j)
        },
    }
}

/// Builds one frontier layer from the layer before it: for every diagonal
/// index, the best offered packed step under the whole-record order,
/// extended by its run of matches, or a vacant cell where no step is
/// offered.
#[verifier::rlimit(100)]
#[verifier::spinoff_prover]
fn build_layer(xs: &[u8], ys: &[u8], prev: &Vec<Option<ReachPoint>>, d: usize) -> (layer: Vec<
    Option<ReachPoint>,
>)
    requires
        xs@.len() + ys@.len() < u16::MAX,
        1 <= d <= xs@.len() + ys@.len(),
        prev@.len() == 2 * (d - 1) + 1,
        forall|t: int|
            0 <= t < prev@.len() ==> #[trigger] rcell_sound(xs@, ys@, d - 1 as int, t, prev@[t]),
        forall|t: int| 0 <= t < prev@.len() ==> #[trigger] gaps_within(prev@[t], d - 1 as int),
    ensures
        layer@.len() == 2 * d + 1,
        forall|t: int|
            0 <= t < layer@.len() ==> #[trigger] dcell_ok(
                xs@,
                ys@,
                proj_layer(prev@),
                d as int,
                t,
                proj(layer@[t]),
            ),
        forall|t: int| 0 <= t < layer@.len() ==> #[trigger] gaps_within(layer@[t], d as int),
{
    let n = xs.len();
    let m = ys.len();
    let prev_len = prev.len();
    let mut layer: Vec<Option<ReachPoint>> = Vec::new();
    let width = 2 * d + 1;
    let mut g: usize = 0;
    while g < width
        invariant
            n == xs@.len(),
            m == ys@.len(),
            n + m < u16::MAX,
            1 <= d <= n + m,
            prev_len == prev@.len(),
            prev@.len() == 2 * (d - 1) + 1,
            forall|t: int|
                0 <= t < prev@.len() ==> #[trigger] rcell_sound(
                    xs@,
                    ys@,
                    d - 1 as int,
                    t,
                    prev@[t],
                ),
            forall|t: int| 0 <= t < prev@.len() ==> #[trigger] gaps_within(prev@[t], d - 1 as int),
            width == 2 * d + 1,
            g <= width,
            layer@.len() == g,
            forall|t: int|
                0 <= t < g ==> #[trigger] dcell_ok(
                    xs@,
                    ys@,
                    proj_layer(prev@),
                    d as int,
                    t,
                    proj(layer@[t]),
                ),
            forall|t: int| 0 <= t < g ==> #[trigger] gaps_within(layer@[t], d as int),
        decreases width - g,
    {
        let from_above: Option<ReachPoint> = if g < prev_len {
            match prev[g] {
                Some(p) => {
                    proof {
                        assert(proj_layer(prev@)[g as int] == proj(prev@[g as int]));
                        assert(rcell_sound(xs@, ys@, d - 1 as int, g as int, prev@[g as int]));
                        assert(gaps_within(prev@[g as int], d - 1 as int));
                        assert(p.reach + (d - 1) >= g);
                    }
                    let jp = p.position();
                    if jp + d - 1 - g < n {
                        Some(p.from_above())
                    } else {
                        None
                    }
                },
                None => None,
            }
        } else {
            None
        };
        let from_mat: Option<ReachPoint> = if g >= 1 && g - 1 < prev_len {
            match prev[g - 1] {
                Some(p) => {
                    proof {
                        assert(proj_layer(prev@)[g - 1 as int] == proj(prev@[g - 1 as int]));
                        assert(rcell_sound(xs@, ys@, d - 1 as int, g - 1 as int, prev@[g - 1 as int]));
                        assert(gaps_within(prev@[g - 1 as int], d - 1 as int));
                        assert(p.reach + d >= g);
                    }
                    let jp = p.position();
                    if jp + d - g < n && jp < m {
                        Some(p.from_mat())
                    } else {
                        None
                    }
                },
                None => None,
            }
        } else {
            None
        };
        let from_left: Option<ReachPoint> = if g >= 2 {
            proof {
                assert(g - 2 < prev_len);
            }
            match prev[g - 2] {
                Some(p) => {
                    proof {
                        assert(proj_layer(prev@)[g - 2 as int] == proj(prev@[g - 2 as int]));
                        assert(rcell_sound(xs@, ys@, d - 1 as int, g - 2 as int, prev@[g - 2 as int]));
                        assert(gaps_within(prev@[g - 2 as int], d - 1 as int));
                    }
                    let jp = p.position();
                    if jp < m {
                        Some(p.from_left())
                    } else {
                        None
                    }
                },
                None => None,
            }
        } else {
            None
        };
        proof {
            assert(proj_cand(from_above) == cand_above(
                xs@,
                proj_layer(prev@),
                d as int,
                g as int,
            ));
            assert(proj_cand(from_mat) == cand_mat(
                xs@,
                ys@,
                proj_layer(prev@),
                d as int,
                g as int,
            ));
            assert(proj_cand(from_left) == cand_left(ys@, proj_layer(prev@), d as int, g as int));
        }
        match max_of_three(from_above, from_mat, from_left) {
            None => {
                layer.push(None);
                proof {
                    assert(dcell_ok(
                        xs@,
                        ys@,
                        proj_layer(prev@),
                        d as int,
                        g as int,
                        proj(layer@[g as int]),
                    ));
                    assert(gaps_within(layer@[g as int], d as int));
                }
            },
            Some(c) => {
                let reach = c.position();
                proof {
                    match c.trace {
                        Some(Op::Del) => {
                            assert(reach + d >= g + 1);
                        },
                        Some(Op::Mismatch) => {
                            assert(reach + d >= g + 1);
                        },
                        Some(Op::Ins) => {
                            assert(reach + d >= g);
                        },
                        _ => {
                            assert(false);
                        },
                    }
                    assert(reach + d >= g && reach + d - g <= n && reach <= m);
                }
                let i_mid = reach + d - g;
                let snake = match_len(xs, i_mid, ys, reach);
                proof {
                    lemma_match_len_props(xs@, ys@, i_mid as int, reach as int);
                }
                let cell = c.add(snake);
                layer.push(Some(cell));
                proof {
                    assert(dcell_ok(
                        xs@,
                        ys@,
                        proj_layer(prev@),
                        d as int,
                        g as int,
                        proj(layer@[g as int]),
                    ));
                    assert(gaps_within(layer@[g as int], d as int));
                }
            },
        }
        g += 1;
    }
    layer
}

/// The unit-cost edit distance of `xs` and `ys` together with a witnessing
/// edit script, found by frontier expansion over packed cells.  The reported
/// distance equals the number of non-`Match` steps of the returned script;
/// equal inputs report zero.  Equal reaches are tied by the whole-record
/// order: fewer accumulated gap runs win, then the higher packed tag codes.
/// The summed input length must fit the 16-bit gap-run field.
#[verifier::rlimit(100)]
#[verifier::spinoff_prover]
pub fn edit_dist(xs: &[u8], ys: &[u8]) -> (r: (u32, Alignment))
    requires
        xs@.len() + ys@.len() < u16::MAX,
    ensures
        is_aligned(r.1.ops@, xs@, ys@),
        dist_of(r.1.ops@) == r.0 as nat,
        crate::distance::edit_dist_spec(xs@, ys@) <= r.0 as nat,
        xs@ == ys@ ==> r.0 == 0,
{
    let n = xs.len();
    let m = ys.len();
    if slices_equal(xs, ys) {
        let mut ops: Vec<Op> = Vec::new();
        let mut t: usize = 0;
        while t < n
            invariant
                t <= n,
                n == xs@.len(),
                ops@.len() == t,
                forall|q: int| 0 <= q < t ==> ops@[q] == Op::Match,
            decreases n - t,
        {
            ops.push(Op::Match);
            t += 1;
        }
        proof {
            lemma_self_all_match(xs@);
            assert(ops@ =~= Seq::new(xs@.len(), |q: int| Op::Match));
            crate::distance::lemma_edit_dist_self(xs@);
        }
        return (0, Alignment::new(ops));
    }
    let s0 = match_len(xs, 0, ys, 0);
    proof {
        lemma_match_len_props(xs@, ys@, 0, 0);
    }
    let mut dp: Vec<Vec<Option<ReachPoint>>> = Vec::new();
    let mut layer0: Vec<Option<ReachPoint>> = Vec::new();
    layer0.push(Some(ReachPoint::new(s0)));
    dp.push(layer0);
    let kabs: usize = if n >= m {
        n - m
    } else {
        m - n
    };
    proof {
        assert(dcell_ok(xs@, ys@, rprev_of(dp@, 0), 0, 0, proj(dp@[0]@[0])));
        assert(gaps_within(dp@[0]@[0], 0));
        assert(rlayers_ok(xs@, ys@, dp@));
        if s0 == m && s0 == n {
            assert forall|t: int| 0 <= t < xs@.len() implies xs@[t] == ys@[t] by {
                assert(xs@[0 + t] == ys@[0 + t]);
            }
            assert(xs@ =~= ys@);
        }
        assert(!rreaches_end(xs@, ys@, dp@[0]@[0], 0, 0));
        assert(rfrontier_progress(xs@, ys@, dp@));
    }
    let mut found: Option<usize> = None;
    while found.is_none()
        invariant
            n == xs@.len(),
            m == ys@.len(),
            n + m < u16::MAX,
            kabs == (if n >= m {
                n - m
            } else {
                m - n
            }),
            !(xs@ == ys@),
            1 <= dp@.len() <= n + m + 1,
            rlayers_ok(xs@, ys@, dp@),
            found is None ==> rfrontier_progress(xs@, ys@, dp@),
            found is None ==> forall|g: int|
                0 <= g < dp@[dp@.len() - 1]@.len() ==> !(#[trigger] rreaches_end(
                    xs@,
                    ys@,
                    dp@[dp@.len() - 1]@[g],
                    dp@.len() - 1,
                    g,
                )),
            match found {
                None => true,
                Some(ge) => ge < dp@[dp@.len() - 1]@.len() && rreaches_end(
                    xs@,
                    ys@,
                    dp@[dp@.len() - 1]@[ge as int],
                    dp@.len() - 1,
                    ge as int,
                ),
            },
        decreases n + m + 1 - dp@.len(),
    {
        let d = dp.len();
        proof {
            let kstar = n as int - m as int;
            let h = d - 1 as int;
            if kstar >= 0 {
                if h >= kstar {
                    let c = dp@[h]@[h - kstar];
                    assert(!rreaches_end(xs@, ys@, c, h, h - kstar));
                    assert(c matches Some(cc) && cc.reach < m) by {
                        assert(dcell_ok(xs@, ys@, rprev_of(dp@, h), h, h - kstar, proj(c)));
                    }
                }
            } else {
                if h >= -kstar {
                    let c = dp@[h]@[h - kstar];
                    assert(!rreaches_end(xs@, ys@, c, h, h - kstar));
                    assert(c matches Some(cc) && cc.reach < m) by {
                        assert(dcell_ok(xs@, ys@, rprev_of(dp@, h), h, h - kstar, proj(c)));
                    }
                } else {
                    let c = dp@[h]@[2 * h];
                    assert(c matches Some(cc) && cc.reach as int <= m) by {
                        assert(dcell_ok(xs@, ys@, rprev_of(dp@, h), h, 2 * h, proj(c)));
                    }
                }
            }
            assert(d <= n + m);
        }
        proof {
            assert forall|t: int| 0 <= t < dp@[d - 1 as int]@.len() implies #[trigger] rcell_sound(
                xs@,
                ys@,
                d - 1 as int,
                t,
                dp@[d - 1 as int]@[t],
            ) && gaps_within(dp@[d - 1 as int]@[t], d - 1 as int) by {
                assert(dcell_ok(
                    xs@,
                    ys@,
                    rprev_of(dp@, d - 1 as int),
                    d - 1 as int,
                    t,
                    proj(dp@[d - 1 as int]@[t]),
                ));
                assert(gaps_within(dp@[d - 1 as int]@[t], d - 1 as int));
            }
        }
        let layer = build_layer(xs, ys, &dp[d - 1], d);
        let width = 2 * d + 1;

        let ghost dp_old = dp@;
        dp.push(layer);
        proof {
            assert forall|h: int| 0 <= h < dp@.len() implies (#[trigger] dp@[h]@.len()) == 2 * h
                + 1 by {
                if h < d {
                    assert(dp@[h] == dp_old[h]);
                }
            }
            assert forall|h: int, g2: int|
                0 <= h < dp@.len() && 0 <= g2 < dp@[h]@.len() implies #[trigger] dcell_ok(
                xs@,
                ys@,
                rprev_of(dp@, h),
                h,
                g2,
                proj(dp@[h]@[g2]),
            ) by {
                if h < d {
                    assert(rprev_of(dp@, h) == rprev_of(dp_old, h));
                    assert(dcell_ok(xs@, ys@, rprev_of(dp_old, h), h, g2, proj(dp_old[h]@[g2])));
                } else {
                    assert(rprev_of(dp@, d as int) == proj_layer(dp_old[d - 1 as int]@));
                    assert(dcell_ok(
                        xs@,
                        ys@,
                        proj_layer(dp_old[d - 1 as int]@),
                        d as int,
                        g2,
                        proj(dp@[h]@[g2]),
                    ));
                }
            }
            assert forall|h: int, g2: int|
                0 <= h < dp@.len() && 0 <= g2 < dp@[h]@.len() implies #[trigger] gaps_within(
                dp@[h]@[g2],
                h,
            ) by {
                if h < d {
                    assert(gaps_within(dp_old[h]@[g2], h));
                } else {
                    assert(gaps_within(dp@[d as int]@[g2], d as int));
                }
            }
            assert(rlayers_ok(xs@, ys@, dp@));
        }
        let mut f: Option<usize> = None;
        let mut g2: usize = 0;
        while g2 < width
            invariant
                n == xs@.len(),
                m == ys@.len(),
                n + m < u16::MAX,
                1 <= d <= n + m,
                dp@.len() == d + 1,
                rlayers_ok(xs@, ys@, dp@),
                width == 2 * d + 1,
                dp@[d as int]@.len() == width,
                g2 <= width,
                match f {
                    None => forall|t: int|
                        0 <= t < g2 ==> !(#[trigger] rreaches_end(
                            xs@,
                            ys@,
                            dp@[d as int]@[t],
                            d as int,
                            t,
                        )),
                    Some(ge) => ge < width && rreaches_end(
                        xs@,
                        ys@,
                        dp@[d as int]@[ge as int],
                        d as int,
                        ge as int,
                    ),
                },
            decreases width - g2,
        {
            if f.is_none() {
                match dp[d][g2] {
                    Some(c) => {
                        proof {
                            assert(dcell_ok(
                                xs@,
                                ys@,
                                rprev_of(dp@, d as int),
                                d as int,
                                g2 as int,
                                proj(dp@[d as int]@[g2 as int]),
                            ));
                            assert(c.reach <= m);
                        }
                        let jr = c.position();
                        if jr == m && jr + d == n + g2 {
                            f = Some(g2);
                        }
                    },
                    None => {},
                }
            }
            g2 += 1;
        }
        found = f;
        proof {
            if found is None {
                let kstar = n as int - m as int;
                let hn = d as int;
                let prev = proj_layer(dp@[d - 1 as int]@);
                if kstar >= 0 {
                    if hn <= kstar {
                        let p = dp_old[d - 1 as int]@[0];
                        assert(p is Some);
                        assert(prev[0] == proj(p));
                        assert(dcell_ok(
                            xs@,
                            ys@,
                            rprev_of(dp_old, d - 1 as int),
                            d - 1 as int,
                            0,
                            proj(p),
                        ));
                        assert(cand_above(xs@, prev, hn, 0) is Some);
                        assert(dcell_ok(xs@, ys@, prev, hn, 0, proj(dp@[hn]@[0])));
                    } else {
                        let gs = hn - kstar;
                        let p = dp_old[d - 1 as int]@[gs - 1];
                        assert(p matches Some(pp) && pp.reach as int >= (hn - 1) - kstar);
                        assert(prev[gs - 1] == proj(p));
                        assert(dcell_ok(
                            xs@,
                            ys@,
                            rprev_of(dp_old, d - 1 as int),
                            d - 1 as int,
                            gs - 1,
                            proj(p),
                        ));
                        assert(!rreaches_end(xs@, ys@, p, d - 1 as int, gs - 1));
                        assert(cand_mat(xs@, ys@, prev, hn, gs) is Some);
                        assert(dcell_ok(xs@, ys@, prev, hn, gs, proj(dp@[hn]@[gs])));
                    }
                } else {
                    if hn <= -kstar {
                        let p = dp_old[d - 1 as int]@[2 * (d - 1) as int];
                        assert(p matches Some(pp) && pp.reach as int >= d - 1);
                        assert(prev[2 * (d - 1) as int] == proj(p));
                        assert(dcell_ok(
                            xs@,
                            ys@,
                            rprev_of(dp_old, d - 1 as int),
                            d - 1 as int,
                            2 * (d - 1) as int,
                            proj(p),
                        ));
                        assert(cand_left(ys@, prev, hn, 2 * hn) is Some);
                        assert(dcell_ok(xs@, ys@, prev, hn, 2 * hn, proj(dp@[hn]@[2 * hn])));
                    } else {
                        let gs = hn - kstar;
                        let p = dp_old[d - 1 as int]@[gs - 1];
                        assert(p matches Some(pp) && pp.reach as int >= hn - 1);
                        assert(prev[gs - 1] == proj(p));
                        assert(dcell_ok(
                            xs@,
                            ys@,
                            rprev_of(dp_old, d - 1 as int),
                            d - 1 as int,
                            gs - 1,
                            proj(p),
                        ));
                        assert(!rreaches_end(xs@, ys@, p, d - 1 as int, gs - 1));
                        assert(cand_mat(xs@, ys@, prev, hn, gs) is Some);
                        assert(dcell_ok(xs@, ys@, prev, hn, gs, proj(dp@[hn]@[gs])));
                    }
                }
                assert(rfrontier_progress(xs@, ys@, dp@));
            }
        }
    }
    let dopt = dp.len() - 1;
    let gend = match found {
        Some(g) => g,
        None => {
            proof {
                assert(false);
            }
            0
        },
    };
    let mut ops: Vec<Op> = Vec::new();
    let mut h: usize = dopt;
    let mut g: usize = gend;
    proof {
        let c = dp@[dopt as int]@[gend as int];
        assert(rreaches_end(xs@, ys@, c, dopt as int, gend as int));
        assert(dcell_ok(xs@, ys@, rprev_of(dp@, dopt as int), dopt as int, gend as int, proj(c)));
        assert(xs@.skip(n as int) =~= Seq::<u8>::empty());
        assert(ys@.skip(m as int) =~= Seq::<u8>::empty());
    }
    loop
        invariant
            n == xs@.len(),
            m == ys@.len(),
            n + m < u16::MAX,
            dp@.len() == dopt + 1,
            dopt <= n + m,
            rlayers_ok(xs@, ys@, dp@),
            h <= dopt,
            g < dp@[h as int]@.len(),
            dp@[h as int]@[g as int] is Some,
            is_aligned(
                ops@.reverse(),
                xs@.skip(
                    (match dp@[h as int]@[g as int] {
                        Some(c) => c.reach + h - g,
                        None => 0int,
                    }),
                ),
                ys@.skip(
                    (match dp@[h as int]@[g as int] {
                        Some(c) => c.reach as int,
                        None => 0int,
                    }),
                ),
            ),
            dist_of(ops@.reverse()) == dopt - h,
        ensures
            h == 0 && g == 0,
            dp@[0]@[0] is Some,
            dp@[0]@[0] matches Some(c) && c.trace is None,
            is_aligned(
                ops@.reverse(),
                xs@.skip(
                    (match dp@[0]@[0] {
                        Some(c) => c.reach as int,
                        None => 0int,
                    }),
                ),
                ys@.skip(
                    (match dp@[0]@[0] {
                        Some(c) => c.reach as int,
                        None => 0int,
                    }),
                ),
            ),
            dist_of(ops@.reverse()) == dopt,
        decreases h,
    {
        let cell = dp[h][g];
        let c = match cell {
            Some(c) => c,
            None => {
                proof {
                    assert(false);
                }
                ReachPoint { reach: 0, gaps: 0, on: Op::Match, trace: None }
            },
        };
        proof {
            assert(dcell_ok(xs@, ys@, rprev_of(dp@, h as int), h as int, g as int, proj(cell)));
            assert(c.reach + h >= g && c.reach + h - g <= n && c.reach <= m);
        }
        let j = c.position();
        let i = j + h - g;
        match c.trace() {
            None => {
                proof {
                    assert(h == 0 && g == 0);
                }
                break ;
            },
            Some(op) => {
                match op {
                    Op::Del => {
                        let p = match dp[h - 1][g] {
                            Some(p) => p,
                            None => {
                                proof {
                                    assert(false);
                                }
                                ReachPoint { reach: 0, gaps: 0, on: Op::Match, trace: None }
                            },
                        };
                        proof {
                            assert(rprev_of(dp@, h as int)[g as int] == proj(
                                dp@[h - 1 as int]@[g as int],
                            ));
                            assert(dcell_ok(
                                xs@,
                                ys@,
                                rprev_of(dp@, h - 1 as int),
                                h - 1 as int,
                                g as int,
                                proj(dp@[h - 1 as int]@[g as int]),
                            ));
                            assert(p.reach + (h - 1) >= g);
                            assert(p.reach <= j);
                            assert(j - p.reach <= i && j - p.reach <= j);
                        }
                        let jp = p.position();
                        let count = j - jp;
                        push_matches(&mut ops, xs, ys, i, j, count);
                        let ghost old_rev = ops@.reverse();
                        proof {
                            let ip = i - count - 1;
                            assert(ip == jp + (h - 1) - g);
                            assert(xs@.skip(ip as int)[0] == xs@[ip as int]);
                            assert(xs@.skip(ip as int).drop_first() =~= xs@.skip(ip + 1 as int));
                        }
                        ops.push(Op::Del);
                        proof {
                            assert(ops@.reverse() =~= seq![Op::Del] + old_rev);
                            lemma_aligned_cons(
                                Op::Del,
                                old_rev,
                                xs@.skip(i - count - 1 as int),
                                ys@.skip(jp as int),
                            );
                        }
                        h -= 1;
                    },
                    Op::Mismatch => {
                        let p = match dp[h - 1][g - 1] {
                            Some(p) => p,
                            None => {
                                proof {
                                    assert(false);
                                }
                                ReachPoint { reach: 0, gaps: 0, on: Op::Match, trace: None }
                            },
                        };
                        proof {
                            assert(rprev_of(dp@, h as int)[g - 1 as int] == proj(
                                dp@[h - 1 as int]@[g - 1 as int],
                            ));
                            assert(dcell_ok(
                                xs@,
                                ys@,
                                rprev_of(dp@, h - 1 as int),
                                h - 1 as int,
                                g - 1 as int,
                                proj(dp@[h - 1 as int]@[g - 1 as int]),
                            ));
                            assert(p.reach + h >= g);
                            assert(p.reach + 1 <= j);
                            assert(j - p.reach - 1 <= i && j - p.reach - 1 <= j);
                        }
                        let jp = p.position();
                        let count = j - jp - 1;
                        push_matches(&mut ops, xs, ys, i, j, count);
                        let ghost old_rev = ops@.reverse();
                        proof {
                            let ip = i - count - 1;
                            assert(ip == jp + h - g);
                            assert(xs@.skip(ip as int)[0] == xs@[ip as int]);
                            assert(ys@.skip(jp as int)[0] == ys@[jp as int]);
                            assert(xs@.skip(ip as int).drop_first() =~= xs@.skip(ip + 1 as int));
                            assert(ys@.skip(jp as int).drop_first() =~= ys@.skip(jp + 1 as int));
                        }
                        ops.push(Op::Mismatch);
                        proof {
                            assert(ops@.reverse() =~= seq![Op::Mismatch] + old_rev);
                            lemma_aligned_cons(
                                Op::Mismatch,
                                old_rev,
                                xs@.skip(i - count - 1 as int),
                                ys@.skip(jp as int),
                            );
                        }
                        h -= 1;
                        g -= 1;
                    },
                    Op::Ins => {
                        let p = match dp[h - 1][g - 2] {
                            Some(p) => p,
                            None => {
                                proof {
                                    assert(false);
                                }
                                ReachPoint { reach: 0, gaps: 0, on: Op::Match, trace: None }
                            },
                        };
                        proof {
                            assert(rprev_of(dp@, h as int)[g - 2 as int] == proj(
                                dp@[h - 1 as int]@[g - 2 as int],
                            ));
                            assert(dcell_ok(
                                xs@,
                                ys@,
                                rprev_of(dp@, h - 1 as int),
                                h - 1 as int,
                                g - 2 as int,
                                proj(dp@[h - 1 as int]@[g - 2 as int]),
                            ));
                            assert(p.reach + h + 1 >= g);
                            assert(p.reach + 1 <= j);
                            assert(j - p.reach - 1 <= i && j - p.reach - 1 <= j);
                        }
                        let jp = p.position();
                        let count = j - jp - 1;
                        push_matches(&mut ops, xs, ys, i, j, count);
                        let ghost old_rev = ops@.reverse();
                        proof {
                            let ip = i - count;
                            assert(ip == jp + h + 1 - g);
                            assert(ys@.skip(jp as int)[0] == ys@[jp as int]);
                            assert(ys@.skip(jp as int).drop_first() =~= ys@.skip(jp + 1 as int));
                        }
                        ops.push(Op::Ins);
                        proof {
                            assert(ops@.reverse() =~= seq![Op::Ins] + old_rev);
                            lemma_aligned_cons(
                                Op::Ins,
                                old_rev,
                                xs@.skip(i - count as int),
                                ys@.skip(jp as int),
                            );
                        }
                        h -= 1;
                        g -= 2;
                    },
                    Op::Match => {
                        proof {
                            assert(false);
                        }
                    },
                }
            },
        }
    }
    let root = match dp[0][0] {
        Some(c) => c,
        None => {
            proof {
                assert(false);
            }
            ReachPoint { reach: 0, gaps: 0, on: Op::Match, trace: None }
        },
    };
    proof {
        assert(dcell_ok(xs@, ys@, rprev_of(dp@, 0), 0, 0, proj(dp@[0]@[0])));
        assert(root.reach <= n && root.reach <= m);
        assert(snake_ok(xs@, ys@, 0, 0, root.reach as int));
    }
    let j0 = root.position();
    push_matches(&mut ops, xs, ys, j0, j0, j0);
    proof {
        assert(xs@.skip(0) =~= xs@);
        assert(ys@.skip(0) =~= ys@);
    }
    let rev = reversed_ops(&ops);
    proof {
        assert(dopt <= n + m < u32::MAX);
        crate::distance::lemma_aligned_cost_ge(rev@, xs@, ys@);
    }
    (dopt as u32, Alignment::new(rev))
}

} // verus!
