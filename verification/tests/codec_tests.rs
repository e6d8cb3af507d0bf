use gridstats::codec::{parse_assignment, render_assignment, render_usize};

#[test]
fn numbers_render_in_decimal() {
    assert_eq!(render_usize(0), b"0".to_vec());
    assert_eq!(render_usize(7), b"7".to_vec());
    assert_eq!(render_usize(10), b"10".to_vec());
    assert_eq!(render_usize(90125), b"90125".to_vec());
}

#[test]
fn assignment_lines_render_space_delimited() {
    assert_eq!(
        render_assignment(12, 7, &b"G0100010".to_vec()),
        b"12 7 G0100010".to_vec()
    );
}

#[test]
fn rendered_lines_parse_back() {
    let cases: Vec<(usize, usize, &[u8])> = vec![
        (0, 0, b"A"),
        (12, 7, b"G0100010"),
        (4094, 1, b"x"),
    ];
    for (x, y, id) in cases {
        let line = render_assignment(x, y, &id.to_vec());
        let parsed = parse_assignment(&line).unwrap();
        assert_eq!(parsed.0, x);
        assert_eq!(parsed.1, y);
        assert_eq!(parsed.2, id.to_vec());
    }
}

#[test]
fn extra_fields_are_ignored() {
    let parsed = parse_assignment(&b"3 4 ID trailing junk".to_vec()).unwrap();
    assert_eq!(parsed, (3, 4, b"ID".to_vec()));
}

#[test]
fn malformed_lines_are_rejected() {
    assert!(parse_assignment(&b"".to_vec()).is_none());
    assert!(parse_assignment(&b"12".to_vec()).is_none());
    assert!(parse_assignment(&b"12 7".to_vec()).is_none());
    assert!(parse_assignment(&b"a b ID".to_vec()).is_none());
    assert!(parse_assignment(&b"1x 2 ID".to_vec()).is_none());
    assert!(parse_assignment(&b" 1 2 ID".to_vec()).is_none());
    assert!(parse_assignment(&b"99999999999999999999999999 2 ID".to_vec()).is_none());
}
