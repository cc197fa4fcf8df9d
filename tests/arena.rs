use rian::arena::{compute_space_bound, compute_space_required, Arena, ByteSpan, Layout, Offset};

fn layouts(pairs: &[(usize, usize)]) -> Vec<Layout> {
    pairs.iter().map(|&(s, a)| Layout::from_size_align(s, a).unwrap()).collect()
}

#[test]
fn arena_space_bound1() {
    let space = compute_space_required(&layouts(&[(4, 1), (2, 2), (2, 2)]));
    assert_eq!(space, 9);
}

#[test]
fn arena_space_bound2() {
    let space = compute_space_required(&layouts(&[(4, 4), (8, 8), (4, 4)]));
    assert_eq!(space, 23);
}

#[test]
fn app_space_bound1() {
    let res = compute_space_bound(&[(4, 1), (2, 2), (2, 2)]);
    assert_eq!(res, 9);
}

#[test]
fn app_space_bound2() {
    let res = compute_space_bound(&[(4, 4), (8, 8), (4, 4)]);
    assert_eq!(res, 23);
}

#[test]
fn space_bound_empty() {
    assert_eq!(compute_space_bound(&[]), 0);
    assert_eq!(compute_space_required(&[]), 0);
}

#[test]
fn layout_rejects_bad_alignment() {
    assert!(Layout::from_size_align(4, 0).is_none());
    assert!(Layout::from_size_align(4, 3).is_none());
    assert!(Layout::from_size_align(isize::MAX as usize, 2).is_none());
    let l = Layout::from_size_align(12, 4).unwrap();
    assert_eq!((l.size(), l.align()), (12, 4));
}

#[test]
fn packing_from_odd_base() {
    let ls = layouts(&[(4, 1), (2, 2), (2, 2)]);
    let (arena, offsets) = Arena::from_layouts(1001, &ls);
    assert_eq!(arena.capacity(), 9);
    assert_eq!(offsets, vec![Offset(0), Offset(5), Offset(7)]);
    // the last slot ends exactly at the end of the arena
    assert_eq!(
        arena.at_offset(Offset(7), &ls[2]),
        Some(ByteSpan { addr: 1008, len: 2 })
    );
}

#[test]
fn packing_is_aligned_and_disjoint_for_every_base() {
    let ls = layouts(&[(3, 1), (8, 8), (1, 1), (4, 4), (16, 16), (2, 2)]);
    let cap = compute_space_required(&ls);
    for base in 0..64usize {
        let (arena, offsets) = Arena::from_layouts(base, &ls);
        assert_eq!(arena.capacity(), cap);
        let mut end = 0;
        for (l, o) in ls.iter().zip(offsets.iter()) {
            let off = o.0 as usize;
            assert_eq!((base + off) % l.align(), 0);
            assert!(off >= end);
            end = off + l.size();
            assert!(end <= cap);
            assert!(arena.at_offset(*o, l).is_some());
        }
    }
}

#[test]
fn at_offset_checks_bounds_and_alignment() {
    let ls = layouts(&[(4, 4)]);
    let (arena, _) = Arena::from_layouts(64, &ls);
    assert_eq!(arena.capacity(), 7);
    let l = Layout::from_size_align(4, 4).unwrap();
    assert_eq!(arena.at_offset(Offset(0), &l), Some(ByteSpan { addr: 64, len: 4 }));
    assert_eq!(arena.at_offset(Offset(2), &l), None);
    assert_eq!(arena.at_offset(Offset(4), &l), None);
    assert_eq!(arena.raw_offset(Offset(3)), 67);
    assert_eq!(arena.base(), 64);
}
