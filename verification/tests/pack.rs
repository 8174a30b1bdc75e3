use calx::geom::V2;
use calx::pack::pack_rectangles;

fn overlap(p: V2<u32>, d: V2<u32>, q: V2<u32>, e: V2<u32>) -> bool {
    d.0 > 0 && d.1 > 0 && e.0 > 0 && e.1 > 0 && p.0 < q.0 + e.0 && q.0 < p.0 + d.0 && p.1 < q.1 + e.1
        && q.1 < p.1 + d.1
}

fn check(side: u32, dims: &Vec<V2<u32>>, at: &Vec<V2<u32>>) {
    assert_eq!(at.len(), dims.len());
    for i in 0..dims.len() {
        assert!(at[i].0 + dims[i].0 <= side);
        assert!(at[i].1 + dims[i].1 <= side);
        for j in 0..i {
            assert!(!overlap(at[i], dims[i], at[j], dims[j]));
        }
    }
}

#[test]
fn nothing_to_pack() {
    assert_eq!(pack_rectangles(1, &vec![]), Some(vec![]));
    assert_eq!(pack_rectangles(0, &vec![]), Some(vec![]));
}

#[test]
fn one_rectangle_goes_to_the_corner() {
    assert_eq!(pack_rectangles(8, &vec![V2(5, 5)]), Some(vec![V2(0, 0)]));
    assert_eq!(pack_rectangles(5, &vec![V2(5, 5)]), Some(vec![V2(0, 0)]));
}

#[test]
fn too_wide_or_too_tall_fails() {
    assert_eq!(pack_rectangles(4, &vec![V2(5, 1)]), None);
    assert_eq!(pack_rectangles(4, &vec![V2(1, 5)]), None);
    assert_eq!(pack_rectangles(0, &vec![V2(1, 1)]), None);
    assert_eq!(pack_rectangles(4, &vec![V2(1, 1), V2(5, 1)]), None);
}

#[test]
fn tallest_first_then_widest_then_earliest() {
    // Equal heights: the widest goes first, to the corner; the two others
    // are then placed in their order on top and beside.
    let dims = vec![V2(2, 2), V2(2, 2), V2(4, 2)];
    assert_eq!(pack_rectangles(4, &dims), Some(vec![V2(0, 2), V2(2, 2), V2(0, 0)]));
    // The tallest goes first although it comes last.
    let dims = vec![V2(1, 1), V2(1, 2), V2(1, 3)];
    assert_eq!(pack_rectangles(3, &dims), Some(vec![V2(2, 0), V2(1, 0), V2(0, 0)]));
}

#[test]
fn lowest_place_wins_and_the_leftmost_of_equals() {
    // After 3x3 at the corner, the 2x1 fits only on top of it in a square
    // of side 4; the 1x1 then finds the ground right of the 3x3.
    let dims = vec![V2(3, 3), V2(2, 1), V2(1, 1)];
    assert_eq!(pack_rectangles(4, &dims), Some(vec![V2(0, 0), V2(0, 3), V2(3, 0)]));
    // In a wider square both go to the ground, one after the other.
    assert_eq!(pack_rectangles(8, &dims), Some(vec![V2(0, 0), V2(3, 0), V2(5, 0)]));
    // Four squares in a square of twice their side fill it row by row.
    let dims = vec![V2(2, 2), V2(2, 2), V2(2, 2), V2(2, 2)];
    assert_eq!(
        pack_rectangles(4, &dims),
        Some(vec![V2(0, 0), V2(2, 0), V2(0, 2), V2(2, 2)])
    );
    assert_eq!(pack_rectangles(3, &dims), None);
}

#[test]
fn a_rectangle_rests_on_the_highest_stretch_under_it() {
    // 2x3 at the corner, 1x2 beside it. In a square of side 5 the 3x1 can
    // start at column 0, over both, or at column 2, over the 1x2 and the
    // free ground: there it rests lower, on the 1x2.
    let dims = vec![V2(2, 3), V2(1, 2), V2(3, 1)];
    assert_eq!(pack_rectangles(5, &dims), Some(vec![V2(0, 0), V2(2, 0), V2(2, 2)]));
    // In a square of side 4 it can start at column 0 only, on the 2x3.
    assert_eq!(pack_rectangles(4, &dims), Some(vec![V2(0, 0), V2(2, 0), V2(0, 3)]));
    // In a square of side 8 it finds free ground.
    assert_eq!(pack_rectangles(8, &dims), Some(vec![V2(0, 0), V2(2, 0), V2(3, 0)]));
}

#[test]
fn a_rectangle_that_would_reach_above_the_square_fails() {
    // The 3x1 goes on top of the 2x3; the 2x1 then has no place left.
    let dims = vec![V2(2, 3), V2(2, 1), V2(3, 1)];
    assert_eq!(pack_rectangles(4, &dims), None);
    assert_eq!(pack_rectangles(8, &dims), Some(vec![V2(0, 0), V2(5, 0), V2(2, 0)]));
}

#[test]
fn empty_rectangles_take_no_room() {
    let dims = vec![V2(0, 0), V2(4, 4), V2(0, 0)];
    let at = pack_rectangles(4, &dims).unwrap();
    assert_eq!(at[1], V2(0, 0));
    check(4, &dims, &at);
    let dims = vec![V2(0, 3), V2(3, 0)];
    let at = pack_rectangles(3, &dims).unwrap();
    check(3, &dims, &at);
}

#[test]
fn packed_rectangles_never_overlap() {
    let mut seed: u32 = 12345;
    for round in 0..200 {
        let mut dims = Vec::new();
        let n = 1 + round % 12;
        for _ in 0..n {
            seed = seed.wrapping_mul(1103515245).wrapping_add(12345);
            let w = (seed >> 16) % 9;
            seed = seed.wrapping_mul(1103515245).wrapping_add(12345);
            let h = (seed >> 16) % 9;
            dims.push(V2(w, h));
        }
        for side in [4u32, 8, 16, 32, 64] {
            if let Some(at) = pack_rectangles(side, &dims) {
                check(side, &dims, &at);
            }
        }
        let at = pack_rectangles(128, &dims).unwrap();
        check(128, &dims, &at);
        assert_eq!(pack_rectangles(128, &dims), Some(at));
    }
}
