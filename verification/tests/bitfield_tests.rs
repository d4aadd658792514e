use ntorrent::bitfield::Bitfield;

#[test]
fn test_bf_has() {
    let bf = Bitfield { bf: vec![2] };
    assert!(bf.has(6));
    assert!(!bf.has(4));
}

#[test]
fn bitfield_test_bf_has() {
    let bf = Bitfield { bf: vec![2] };
    assert!(bf.has(6));
    assert!(!bf.has(4));
}

#[test]
fn test_add() {
    let mut bf = Bitfield { bf: vec![0, 0] };
    assert!(!bf.has(2));

    bf.add(2);
    assert!(bf.has(2));

    assert!(!bf.has(10));
    bf.add(10);
    assert!(bf.has(10));
}

#[test]
fn add_keeps_other_bits() {
    let mut bf = Bitfield { bf: vec![0b1010_0000, 0] };
    bf.add(1);
    assert!(bf.has(0));
    assert!(bf.has(1));
    assert!(bf.has(2));
    assert!(!bf.has(3));
    for j in 4..16 {
        assert!(!bf.has(j));
    }
}

#[test]
fn out_of_range_reads_clear() {
    let bf = Bitfield::full(1);
    for j in 0..8 {
        assert!(bf.has(j));
    }
    assert!(!bf.has(8));
    assert!(!bf.has(100));

    let mut small = Bitfield::new(1);
    small.add(9);
    assert_eq!(small.bf, vec![0]);
}

#[test]
fn new_and_len() {
    let bf = Bitfield::new(3);
    assert_eq!(bf.len(), 3);
    for j in 0..24 {
        assert!(!bf.has(j));
    }
    let bf2 = Bitfield::from(vec![0x80]);
    assert!(bf2.has(0));
    assert!(!bf2.has(1));
}
