use clean_diff::alignments::Alignment;
use clean_diff::alignments::Op;
use clean_diff::edit_dist_diff;
use clean_diff::edit_dist_diff_clean;
use clean_diff::edit_dist_usual;
use clean_diff::edit_dist_usual_clean;

#[test]
fn edit_dist_usual_edit_dist_calc() {
    let xs = b"AAACCC";
    let (dist, ops) = edit_dist_usual::edit_dist(xs, xs);
    assert_eq!(dist, 0);
    assert_eq!(ops.ops, vec![Op::Match; xs.len()]);
    let ys = b"AAA";
    let (dist, aln) = edit_dist_usual::edit_dist(xs, ys);
    assert_eq!(dist, 3);
    assert_eq!(aln.ops, vec![vec![Op::Match; 3], vec![Op::Del; 3]].concat());
    let ys = b"";
    let (dist, aln) = edit_dist_usual::edit_dist(xs, ys);
    assert_eq!(dist, 6);
    assert_eq!(aln.ops, vec![Op::Del; 6]);
    let (dist, aln) = edit_dist_usual::edit_dist(ys, xs);
    assert_eq!(dist, 6);
    assert_eq!(aln.ops, vec![Op::Ins; 6]);
    let xs = b"ACGT";
    let ys = b"ACCTG";
    let (dist, aln) = edit_dist_usual::edit_dist(xs, ys);
    assert_eq!(dist, 2);
    assert_eq!(
        aln.ops,
        vec![Op::Match, Op::Match, Op::Mismatch, Op::Match, Op::Ins]
    );
}

#[test]
fn edit_dist_diff_edit_dist_calc() {
    let xs = b"AAACCC";
    let (dist, ops) = edit_dist_diff::edit_dist(xs, xs);
    assert_eq!(dist, 0);
    assert_eq!(ops.ops, vec![Op::Match; xs.len()]);
    let ys = b"AAAGCC";
    let (dist, aln) = edit_dist_diff::edit_dist(xs, ys);
    assert_eq!(dist, 1);
    assert_eq!(
        aln.ops,
        vec![vec![Op::Match; 3], vec![Op::Mismatch], vec![Op::Match; 2]].concat()
    );
    let ys = b"AAA";
    let (dist, aln) = edit_dist_diff::edit_dist(xs, ys);
    assert_eq!(dist, 3);
    assert_eq!(aln.ops, vec![vec![Op::Match; 3], vec![Op::Del; 3]].concat());
    let ys = b"";
    let (dist, aln) = edit_dist_diff::edit_dist(xs, ys);
    assert_eq!(dist, 6);
    assert_eq!(aln.ops, vec![Op::Del; 6]);
    let (dist, aln) = edit_dist_diff::edit_dist(ys, xs);
    assert_eq!(dist, 6);
    assert_eq!(aln.ops, vec![Op::Ins; 6]);
    let xs = b"ACGT";
    let ys = b"ACCTG";
    let (dist, aln) = edit_dist_diff::edit_dist(xs, ys);
    assert_eq!(dist, 2);
    assert_eq!(
        aln.ops,
        vec![Op::Match, Op::Match, Op::Mismatch, Op::Match, Op::Ins]
    );
    let xs = b"AAAAA";
    let ys = b"ATG";
    let (dist, ops) = edit_dist_diff::edit_dist(xs, ys);
    assert_eq!(dist, 4);
    let ylen = ops.ops.iter().filter(|&&op| op != Op::Del).count();
    assert_eq!(ylen, 3);
    let xs = b"ACCCAC";
    let ys = b"ACC";
    edit_dist_diff::edit_dist(xs, ys);
}

#[test]
fn edit_dist() {
    let xs = b"AAAAA";
    let ys = b"ATG";
    let (dist, ops) = edit_dist_diff_clean::edit_dist(xs, ys);
    assert_eq!(dist, 4);
    let ylen = ops.ops.iter().filter(|&&op| op != Op::Del).count();
    assert_eq!(ylen, 3);
}

#[test]
fn packed_quadratic_matches_plain() {
    let cases: [(&[u8], &[u8]); 6] = [
        (b"AAACCC", b"AAACCC"),
        (b"AAACCC", b"AAA"),
        (b"ACGT", b"ACCTG"),
        (b"AAAAA", b"ATG"),
        (b"", b"ACGT"),
        (b"ACCCAC", b"ACC"),
    ];
    for (xs, ys) in cases {
        let (d1, a1) = edit_dist_usual::edit_dist(xs, ys);
        let (d2, a2) = edit_dist_usual_clean::edit_dist(xs, ys);
        assert_eq!(d1, d2);
        assert_eq!(a1.dist_and_num_of_gaps().0, d1);
        assert_eq!(a2.dist_and_num_of_gaps().0, d2);
    }
}

#[test]
fn cross_validation_all_engines() {
    let mut state: u64 = 32909;
    let mut next = move || {
        state = state
            .wrapping_mul(6364136223846793005)
            .wrapping_add(1442695040888963407);
        state >> 33
    };
    let bases = [b'A', b'C', b'G', b'T'];
    for _ in 0..50 {
        let len = (next() % 24) as usize + 1;
        let xs: Vec<u8> = (0..len).map(|_| bases[(next() % 4) as usize]).collect();
        // mutate: per position, maybe substitute, delete, or insert
        let mut ys: Vec<u8> = Vec::new();
        for &b in &xs {
            match next() % 10 {
                0 => ys.push(bases[(next() % 4) as usize]),
                1 => {}
                2 => {
                    ys.push(b);
                    ys.push(bases[(next() % 4) as usize]);
                }
                _ => ys.push(b),
            }
        }
        let (d1, a1) = edit_dist_usual::edit_dist(&xs, &ys);
        let (d2, a2) = edit_dist_usual_clean::edit_dist(&xs, &ys);
        let (d3, a3) = edit_dist_diff::edit_dist(&xs, &ys);
        let (d4, a4) = edit_dist_diff_clean::edit_dist(&xs, &ys);
        assert_eq!(d1, d2);
        assert_eq!(d1, d3);
        assert_eq!(d1, d4);
        for a in [a1, a2, a3, a4] {
            assert_eq!(a.dist_and_num_of_gaps().0, d1);
        }
    }
}

#[test]
fn exhaustive_small_cross_validation() {
    // every pair of strings over a two-letter alphabet up to length four:
    // all four engines must report the same distance
    let mut words: Vec<Vec<u8>> = vec![vec![]];
    let mut frontier: Vec<Vec<u8>> = vec![vec![]];
    for _ in 0..4 {
        let mut next: Vec<Vec<u8>> = Vec::new();
        for w in &frontier {
            for b in [b'A', b'B'] {
                let mut v = w.clone();
                v.push(b);
                next.push(v);
            }
        }
        words.extend(next.iter().cloned());
        frontier = next;
    }
    for xs in &words {
        for ys in &words {
            let (d1, _) = edit_dist_usual::edit_dist(xs, ys);
            let (d2, _) = edit_dist_usual_clean::edit_dist(xs, ys);
            let (d3, _) = edit_dist_diff::edit_dist(xs, ys);
            let (d4, _) = edit_dist_diff_clean::edit_dist(xs, ys);
            assert_eq!(d1, d2);
            assert_eq!(d1, d3);
            assert_eq!(d1, d4);
        }
    }
}

#[test]
fn empty_against_any_sequence() {
    let xs = b"GATTACA";
    for f in [
        edit_dist_usual::edit_dist,
        edit_dist_usual_clean::edit_dist,
        edit_dist_diff::edit_dist,
        edit_dist_diff_clean::edit_dist,
    ] {
        let (d, a) = f(xs, b"");
        assert_eq!(d, 7);
        assert_eq!(a.ops, vec![Op::Del; 7]);
        let (d, a) = f(b"", xs);
        assert_eq!(d, 7);
        assert_eq!(a.ops, vec![Op::Ins; 7]);
        let (d, a) = f(b"", b"");
        assert_eq!(d, 0);
        assert_eq!(a.ops, vec![]);
    }
}

#[test]
fn identical_sequences_all_match() {
    let s = b"GATTACAGATTACA";
    for f in [
        edit_dist_usual::edit_dist,
        edit_dist_usual_clean::edit_dist,
        edit_dist_diff::edit_dist,
        edit_dist_diff_clean::edit_dist,
    ] {
        let (d, a) = f(s, s);
        assert_eq!(d, 0);
        assert_eq!(a.ops, vec![Op::Match; s.len()]);
    }
}

#[test]
fn symmetry_of_distance() {
    let pairs: [(&[u8], &[u8]); 4] = [
        (b"AAACCC", b"AAA"),
        (b"ACGT", b"ACCTG"),
        (b"AAAAA", b"ATG"),
        (b"GATTACA", b""),
    ];
    for (xs, ys) in pairs {
        let (dxy, axy) = edit_dist_usual::edit_dist(xs, ys);
        let (dyx, ayx) = edit_dist_usual::edit_dist(ys, xs);
        assert_eq!(dxy, dyx);
        // the mirrored script of one direction is a script of the other
        let swapped: Vec<Op> = axy
            .ops
            .iter()
            .map(|&op| match op {
                Op::Ins => Op::Del,
                Op::Del => Op::Ins,
                other => other,
            })
            .collect();
        assert_eq!(swapped.len(), ayx.ops.len());
        assert_eq!(
            Alignment::new(swapped).dist_and_num_of_gaps(),
            ayx.dist_and_num_of_gaps()
        );
    }
}
