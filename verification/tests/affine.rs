use clean_diff::affine_gap::align;
use clean_diff::alignments::Op;

#[test]
fn affine_gap_test() {
    let xs = b"AAACCC";
    let (dist, ops) = align(xs, xs, 0, -1, -1, -1);
    assert_eq!(dist, 0);
    assert_eq!(ops.ops, vec![Op::Match; xs.len()]);
    let ys = b"AAA";
    let (dist, aln) = align(xs, ys, 0, -1, -1, -1);
    assert_eq!(dist, -3);
    assert_eq!(aln.ops, vec![vec![Op::Match; 3], vec![Op::Del; 3]].concat());
    let ys = b"";
    let (dist, aln) = align(xs, ys, 0, -1, -1, -1);
    assert_eq!(dist, -6);
    assert_eq!(aln.ops, vec![Op::Del; 6]);
    let (dist, aln) = align(ys, xs, 0, -1, -1, -1);
    assert_eq!(dist, -6);
    assert_eq!(aln.ops, vec![Op::Ins; 6]);
    let xs = b"ACGT";
    let ys = b"ACCTG";
    let (dist, aln) = align(xs, ys, 0, -1, -1, -1);
    assert_eq!(dist, -2);
    assert_eq!(
        aln.ops,
        vec![Op::Match, Op::Match, Op::Mismatch, Op::Match, Op::Ins]
    );
    let xs = b"ACCCGCCCA";
    let ys = b"AGA";
    let (dist, aln) = align(xs, ys, 0, -1, -10, -1);
    assert_eq!(dist, -1 - 10 - 5);
    assert_eq!(
        aln.ops,
        vec![
            vec![Op::Match],
            vec![Op::Mismatch],
            vec![Op::Del; 6],
            vec![Op::Match]
        ]
        .concat()
    );
}

#[test]
fn affine_empty_cases() {
    let (score, aln) = align(b"ACG", b"", 0, -1, -2, -1);
    assert_eq!(score, -4);
    assert_eq!(aln.ops, vec![Op::Del; 3]);
    let (score, aln) = align(b"", b"ACG", 0, -1, -2, -1);
    assert_eq!(score, -4);
    assert_eq!(aln.ops, vec![Op::Ins; 3]);
    let (score, aln) = align(b"", b"", 0, -1, -2, -1);
    assert_eq!(score, 0);
    assert_eq!(aln.ops, vec![]);
}

#[test]
fn affine_prefers_one_long_gap_when_opening_is_dear() {
    // with a dear opening, one six-long gap beats several short ones
    let (score, aln) = align(b"AAACCCGGG", b"AAAGGG", 0, -2, -6, -1);
    assert_eq!(score, -8);
    let (dist, gaps) = aln.dist_and_num_of_gaps();
    assert_eq!(dist, 3);
    assert_eq!(gaps, 1);
}
