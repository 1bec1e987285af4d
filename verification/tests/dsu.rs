use svgit::dsu::Dsu;

#[test]
fn everything_starts_alone() {
    let mut d = Dsu::new(3);
    for x in 0..3 {
        assert_eq!(d.find(x), x);
    }
}

#[test]
fn union_by_rank() {
    let mut d = Dsu::new(5);
    // Equal ranks: the second goes under the first, whose rank rises.
    assert_eq!(d.union(0, 1), 0);
    assert_eq!(d.find(1), 0);
    // The lower rank goes under the higher, whichever comes first.
    assert_eq!(d.union(2, 0), 0);
    assert_eq!(d.union(0, 3), 0);
    assert_eq!(d.find(2), 0);
    assert_eq!(d.find(3), 0);
    assert_eq!(d.find(4), 4);
    assert_eq!(d.union(4, 4), 4);
}

#[test]
fn chains_lead_to_one_root() {
    let mut d = Dsu::new(8);
    let a = d.union(0, 1);
    let b = d.union(2, 3);
    let c = d.union(a, b);
    let e = d.union(4, 5);
    let f = d.union(6, 7);
    let g = d.union(e, f);
    let top = d.union(c, g);
    for x in 0..8 {
        assert_eq!(d.find(x), top);
    }
}
