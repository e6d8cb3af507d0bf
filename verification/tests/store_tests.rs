use gridstats::codec::{parse_assignment, render_assignment};
use gridstats::store::{bytes_eq, bytes_lt, load_assignments};

fn triple(x: usize, y: usize, id: &str) -> (usize, usize, Vec<u8>) {
    (x, y, id.as_bytes().to_vec())
}

#[test]
fn bytes_order_is_lexicographic() {
    assert!(bytes_lt(&b"A".to_vec(), &b"B".to_vec()));
    assert!(bytes_lt(&b"A".to_vec(), &b"AB".to_vec()));
    assert!(!bytes_lt(&b"B".to_vec(), &b"AB".to_vec()));
    assert!(!bytes_lt(&b"A".to_vec(), &b"A".to_vec()));
    assert!(bytes_eq(&b"G01".to_vec(), &b"G01".to_vec()));
    assert!(!bytes_eq(&b"G01".to_vec(), &b"G02".to_vec()));
}

#[test]
fn loader_groups_by_region_id() {
    let triples = vec![
        triple(1, 2, "B"),
        triple(3, 4, "A"),
        triple(5, 6, "B"),
        triple(7, 8, "A"),
    ];
    let store = load_assignments(&triples);
    assert_eq!(store.len(), 2);
    assert_eq!(store[0].0, b"A".to_vec());
    assert_eq!(store[0].1, vec![(3, 4), (7, 8)]);
    assert_eq!(store[1].0, b"B".to_vec());
    assert_eq!(store[1].1, vec![(1, 2), (5, 6)]);
}

#[test]
fn loader_keys_are_sorted_whatever_the_input_order() {
    let a = vec![triple(0, 0, "Z"), triple(1, 1, "M"), triple(2, 2, "A")];
    let b = vec![triple(2, 2, "A"), triple(0, 0, "Z"), triple(1, 1, "M")];
    let sa = load_assignments(&a);
    let sb = load_assignments(&b);
    let keys_a: Vec<Vec<u8>> = sa.iter().map(|e| e.0.clone()).collect();
    let keys_b: Vec<Vec<u8>> = sb.iter().map(|e| e.0.clone()).collect();
    assert_eq!(keys_a, vec![b"A".to_vec(), b"M".to_vec(), b"Z".to_vec()]);
    assert_eq!(keys_a, keys_b);
}

#[test]
fn grouping_is_independent_of_line_order() {
    // the round trip of the pipeline: lines written by the index builder,
    // re-parsed and grouped by the loader, give the same mapping in any
    // line order
    let lines_a = vec![
        render_assignment(0, 0, &b"G2".to_vec()),
        render_assignment(4, 5, &b"G1".to_vec()),
        render_assignment(1, 3, &b"G2".to_vec()),
    ];
    let lines_b = vec![
        render_assignment(1, 3, &b"G2".to_vec()),
        render_assignment(0, 0, &b"G2".to_vec()),
        render_assignment(4, 5, &b"G1".to_vec()),
    ];
    let parse_all = |lines: &Vec<Vec<u8>>| -> Vec<(usize, usize, Vec<u8>)> {
        lines.iter().map(|l| parse_assignment(l).unwrap()).collect()
    };
    let sa = load_assignments(&parse_all(&lines_a));
    let sb = load_assignments(&parse_all(&lines_b));
    let keys_a: Vec<Vec<u8>> = sa.iter().map(|e| e.0.clone()).collect();
    let keys_b: Vec<Vec<u8>> = sb.iter().map(|e| e.0.clone()).collect();
    assert_eq!(keys_a, keys_b);
    for k in 0..sa.len() {
        let mut ca = sa[k].1.clone();
        let mut cb = sb[k].1.clone();
        ca.sort();
        cb.sort();
        assert_eq!(ca, cb);
    }
    assert_eq!(sa[0].1, vec![(4, 5)]);
    let mut g2 = sa[1].1.clone();
    g2.sort();
    assert_eq!(g2, vec![(0, 0), (1, 3)]);
}
