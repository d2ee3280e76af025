use union_find::Point;
use union_find::UF;

#[test]
fn test_uf() {
    let mut uf: UF<i32> = UF::new();
    let p = uf.make_point(1);
    let q = uf.make_point(2);
    assert_ne!(p, q);

    uf.union(p, q, |a, _b| a);

    let p = uf.find(p);
    let q = uf.find(q);
    assert_eq!(p, q);

    assert_eq!(*uf.get(p), 1);
}

#[test]
fn fresh_point_is_its_own_representative() {
    let mut uf: UF<u32> = UF::new();
    let p = uf.make_point(7);
    assert_eq!(uf.find(p), p);
    let q = uf.make_point(8);
    assert_eq!(uf.find(q), q);
    assert_eq!(uf.find(p), p);
}

#[test]
fn find_is_idempotent() {
    let mut uf: UF<u32> = UF::new();
    let p = uf.make_point(1);
    let q = uf.make_point(2);
    let r = uf.make_point(3);
    uf.union(p, q, |a, b| a + b);
    uf.union(q, r, |a, b| a + b);
    let root = uf.find(p);
    assert_eq!(uf.find(root), root);
    let root_q = uf.find(q);
    assert_eq!(uf.find(root_q), root_q);
    assert_eq!(root, root_q);
}

#[test]
fn union_connects_both_handles() {
    let mut uf: UF<u32> = UF::new();
    let a = uf.make_point(5);
    let b = uf.make_point(6);
    let r = uf.union(a, b, |x, y| x + y);
    assert_eq!(uf.find(a), uf.find(b));
    assert_eq!(uf.find(a), r);
}

#[test]
fn union_of_joined_sets_skips_the_combiner() {
    let mut uf: UF<u32> = UF::new();
    let a = uf.make_point(5);
    let b = uf.make_point(6);
    uf.union(a, b, |x, y| x + y);
    let root = uf.find(a);
    // The sets are already one: the combining function must not run, and the
    // representative comes back unchanged.
    let r = uf.union(a, b, |_x, _y| panic!("combiner must not run"));
    assert_eq!(r, root);
    assert_eq!(*uf.get(a), 11);
}

#[test]
fn union_with_itself_is_a_no_op() {
    let mut uf: UF<u32> = UF::new();
    let a = uf.make_point(9);
    let r = uf.union(a, a, |_x, _y| panic!("combiner must not run"));
    assert_eq!(r, a);
    assert_eq!(*uf.get(a), 9);
}

#[test]
fn combiner_runs_exactly_once_per_merge() {
    let mut uf: UF<u32> = UF::new();
    let a = uf.make_point(1);
    let b = uf.make_point(2);
    // Each application adds 100, so the result counts the applications.
    uf.union(a, b, |x, y| 100 + x + y);
    assert_eq!(*uf.get(a), 103);
    assert_eq!(*uf.get(b), 103);
}

#[test]
fn equal_rank_tie_keeps_first_argument() {
    let mut uf: UF<i32> = UF::new();
    let p = uf.make_point(1);
    let q = uf.make_point(2);
    assert_ne!(p, q);
    // Both sets have rank 0, so the tie is broken in favor of `p`, and the
    // keep-first combiner keeps `p`'s value.
    uf.union(p, q, |x, _y| x);
    assert_eq!(uf.find(p), uf.find(q));
    assert_eq!(*uf.get(p), 1);
    assert_eq!(*uf.get(q), 1);
}

#[test]
fn higher_rank_side_survives() {
    let mut uf: UF<u32> = UF::new();
    let a = uf.make_point(1);
    let b = uf.make_point(2);
    // After this union the merged set has rank 1 and `a` is its
    // representative.
    uf.union(a, b, |x, y| x + y);
    let root = uf.find(a);
    let c = uf.make_point(4);
    // `c` has rank 0, so the rank-1 representative survives even though `c`
    // is the first argument; the combiner still sees the survivor's value
    // first.
    let r = uf.union(c, a, |survivor, absorbed| {
        assert_eq!(survivor, 3);
        assert_eq!(absorbed, 4);
        survivor + absorbed
    });
    assert_eq!(r, root);
    assert_eq!(*uf.get(c), 7);
}

#[test]
fn accumulates_across_merges() {
    let mut uf: UF<u64> = UF::new();
    let a = uf.make_point(10);
    let b = uf.make_point(20);
    let c = uf.make_point(30);
    let r = uf.union(a, b, |x, y| x + y);
    uf.union(r, c, |x, y| x + y);
    assert_eq!(*uf.get(a), 60);
    assert_eq!(*uf.get(b), 60);
    assert_eq!(*uf.get(c), 60);

    // The total is the same no matter in which order the sets are joined.
    let mut uf2: UF<u64> = UF::new();
    let a2 = uf2.make_point(10);
    let b2 = uf2.make_point(20);
    let c2 = uf2.make_point(30);
    let r2 = uf2.union(b2, c2, |x, y| x + y);
    uf2.union(a2, r2, |x, y| x + y);
    assert_eq!(*uf2.get(a2), 60);
    assert_eq!(*uf2.get(c2), 60);
}

#[test]
fn find_and_get_returns_matching_pair() {
    let mut uf: UF<i32> = UF::new();
    let a = uf.make_point(3);
    let b = uf.make_point(4);
    uf.union(a, b, |x, y| x * y);
    let root = uf.find(a);
    let (found, value) = uf.find_and_get(b);
    assert_eq!(found, root);
    assert_eq!(*value, 12);
}

#[test]
fn stress_many_unions_and_finds() {
    let n: u64 = 64;
    let mut uf: UF<u64> = UF::new();
    let mut points: Vec<Point> = Vec::new();
    for i in 0..n {
        points.push(uf.make_point(i));
    }
    // Join neighbours, then pairs, then blocks, interleaving lookups, so
    // long chains get built and compressed along the way.
    let mut step: usize = 1;
    while step < n as usize {
        let mut i: usize = 0;
        while i + step < n as usize {
            uf.union(points[i], points[i + step], |x, y| x + y);
            let _ = uf.find(points[i + step]);
            i += 2 * step;
        }
        step *= 2;
    }
    let expected: u64 = n * (n - 1) / 2;
    let root = uf.find(points[0]);
    for i in 0..n as usize {
        assert_eq!(uf.find(points[i]), root);
        assert_eq!(*uf.get(points[i]), expected);
    }
    // Once everything is compressed, lookups keep giving the same root.
    for i in 0..n as usize {
        assert_eq!(uf.find(points[i]), root);
    }
}
