use clean_diff::alignments::Alignment;
use clean_diff::alignments::Op;

#[test]
fn recover() {
    let ops = "=XID";
    let aln = Alignment::from_str(ops).unwrap();
    assert_eq!(vec![Op::Match, Op::Mismatch, Op::Ins, Op::Del], aln.ops);
    let ops = "XX=====IDIDIDIDID====XXXXIDID";
    let aln = Alignment::from_str(ops).unwrap();
    let rec = Alignment::to_string(&aln);
    assert_eq!(ops, rec);
}

#[test]
fn eval() {
    let ops = Alignment::from_str("=========").unwrap();
    let (dist, gaps) = ops.dist_and_num_of_gaps();
    assert_eq!(dist, 0);
    assert_eq!(gaps, 0);
    let ops = Alignment::from_str("XXXXX==").unwrap();
    let dg = ops.dist_and_num_of_gaps();
    assert_eq!(dg, (5, 0));
    let ops = Alignment::from_str("DDDDIIII").unwrap();
    let dg = ops.dist_and_num_of_gaps();
    assert_eq!(dg, (8, 2));
    let ops = Alignment::from_str("IIDD=D=DI=").unwrap();
    let dg = ops.dist_and_num_of_gaps();
    assert_eq!(dg, (7, 5));
}

#[test]
fn parse_rejects_other_characters() {
    assert!(Alignment::from_str("=XIDQ").is_none());
    assert!(Alignment::from_str("abc").is_none());
    assert!(Alignment::from_str("== ==").is_none());
    assert!(Alignment::from_str("=XID").is_some());
    assert!(Alignment::from_str("").is_some());
}

#[test]
fn round_trip_over_the_alphabet() {
    let cases = [
        "",
        "=",
        "X",
        "I",
        "D",
        "DDDDIIII",
        "IIDD=D=DI=",
        "=========",
        "=XID=XIDDDXX==II",
    ];
    for s in cases {
        assert_eq!(Alignment::from_str(s).unwrap().to_string(), s);
    }
}

#[test]
fn op_characters_map_both_ways() {
    let all = [Op::Match, Op::Mismatch, Op::Ins, Op::Del];
    for op in all {
        assert_eq!(Op::from_char(op.to_char()), Some(op));
    }
    assert_eq!(Op::from_char('='), Some(Op::Match));
    assert_eq!(Op::from_char('X'), Some(Op::Mismatch));
    assert_eq!(Op::from_char('I'), Some(Op::Ins));
    assert_eq!(Op::from_char('D'), Some(Op::Del));
    assert_eq!(Op::from_char('M'), None);
}

#[test]
fn recover_renders_three_rows() {
    let aln = Alignment::from_str("=XID").unwrap();
    let (xr, mid, yr) = aln.recover(b"ACG", b"AGT");
    assert_eq!(xr, b"AC G".to_vec());
    assert_eq!(mid, b"|X  ".to_vec());
    assert_eq!(yr, b"AGT ".to_vec());
}
