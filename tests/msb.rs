use clusterphobia::clustering::msb::MostSignificantBit;

#[test]
fn msb_for_u64() {
    let cases: Vec<(u64, usize)> = vec![(0, 0), (1, 0), (2, 1), (3, 1), (4, 2), (255, 7), (1023, 9), (1024, 10)];
    for (number, expected_position) in cases {
        assert_eq!(number.msb(), expected_position, "For input {}", number);
    }
    assert_eq!(u64::MAX.msb(), 63);
}

#[test]
fn msb_for_u32() {
    let cases: Vec<(u32, usize)> = vec![(0, 0), (1, 0), (2, 1), (3, 1), (4, 2), (255, 7), (1023, 9), (1024, 10)];
    for (number, expected_position) in cases {
        assert_eq!(number.msb(), expected_position, "For input {}", number);
    }
}

#[test]
fn msb_for_u16() {
    let cases: Vec<(u16, usize)> = vec![(0, 0), (1, 0), (2, 1), (3, 1), (4, 2), (255, 7), (1023, 9), (1024, 10)];
    for (number, expected_position) in cases {
        assert_eq!(number.msb(), expected_position, "For input {}", number);
    }
}
