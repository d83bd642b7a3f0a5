//! Tests of the toroidal traversal and both wrap-addressed grid forms.

use tileworld::array2d::{Array2D, Array2DErr};
use tileworld::common::{ceil_log2, icdiv, ifdiv, queue_clear_u8, queue_pressed_u8, queue_set_u8, queue_shift_u8};
use tileworld::fast_array2d::FastArray2D;
use tileworld::grid::for_each_sub_wrapping;

#[test]
fn wrap_visit_order() {
    // A grid of width 4 and a rectangle x in [3, 6) visits world-x {3, 4, 5}
    // mapping to storage-x {3, 0, 1}, in that order.
    let visits = for_each_sub_wrapping(4, 4, 3, 6, 0, 1);
    assert_eq!(visits, vec![(3, 0, 3), (4, 0, 0), (5, 0, 1)]);
}

#[test]
fn traversal_complete_and_unique() {
    // Full wrap on both axes: each world cell of the rectangle appears
    // exactly once, in row-major order, and no storage index repeats.
    let (w, h) = (5, 7);
    let (x1, x2, y1, y2) = (3, 8, 5, 12);
    let visits = for_each_sub_wrapping(w, h, x1, x2, y1, y2);
    assert_eq!(visits.len(), (x2 - x1) * (y2 - y1));
    let mut k = 0;
    for wy in y1..y2 {
        for wx in x1..x2 {
            let (vx, vy, idx) = visits[k];
            assert_eq!((vx, vy), (wx, wy));
            assert_eq!(idx, (wx % w) + (wy % h) * w);
            k += 1;
        }
    }
    let mut seen = vec![false; w * h];
    for &(_, _, idx) in &visits {
        assert!(!seen[idx], "storage cell visited twice");
        seen[idx] = true;
    }
}

#[test]
fn array2d_point_access() {
    let mut g: Array2D<u8> = Array2D::from_value(4, 3, 7);
    assert_eq!(g.size(), (4, 3));
    assert_eq!(g.get(0, 0), Some(&7));
    assert_eq!(g.get(4, 0), None);
    assert_eq!(g.get(0, 3), None);
    g.set(2, 1, 9);
    assert_eq!(g.get(2, 1), Some(&9));
    // Wrapped access reduces each coordinate modulo the dimensions.
    assert_eq!(*g.get_wrapping(6, 4), 9);
    g.set_wrapping(6, 4, 12);
    assert_eq!(g.get(2, 1), Some(&12));
}

#[test]
fn array2d_raw_round_trip() {
    let data: Vec<u16> = (0..12).collect();
    let g = Array2D::from_box(4, 3, data.clone());
    assert_eq!(g.raw(), &data);
    assert_eq!(g.into_raw(), data);
}

#[test]
fn array2d_inbounds() {
    let g: Array2D<u8> = Array2D::from_value(4, 4, 0);
    assert!(g.inbounds(0, 4, 0, 4));
    assert!(g.inbounds(3, 3, 3, 3));
    assert!(!g.inbounds(4, 4, 0, 4));
    assert!(!g.inbounds(0, 5, 0, 4));
    assert!(!g.inbounds(0, 4, 0, 5));
}

#[test]
fn clone_sub_rejects_bad_rectangles() {
    let g: Array2D<u8> = Array2D::from_value(4, 4, 0);
    assert_eq!(g.clone_sub(0, 5, 0, 4).unwrap_err(), Array2DErr::OutOfBounds);
    assert_eq!(g.clone_sub(0, 4, 2, 5).unwrap_err(), Array2DErr::OutOfBounds);
    assert_eq!(g.clone_sub(2, 2, 0, 4).unwrap_err(), Array2DErr::OutOfBounds);
    assert!(g.clone_sub(1, 4, 1, 4).is_ok());
}

#[test]
fn clone_sub_extracts_rectangle() {
    let data: Vec<u8> = (0..16).collect();
    let g = Array2D::from_box(4, 4, data);
    let sub = g.clone_sub(1, 3, 2, 4).unwrap();
    assert_eq!(sub.size(), (2, 2));
    // Row-major: cells (1,2) (2,2) (1,3) (2,3) of the source.
    assert_eq!(sub.raw(), &vec![9, 10, 13, 14]);
}

#[test]
fn clone_sub_wrapping_wraps() {
    let data: Vec<u8> = (0..16).collect();
    let g = Array2D::from_box(4, 4, data);
    let sub = g.clone_sub_wrapping(3, 5, 3, 5);
    // World cells (3,3) (4,3) (3,4) (4,4) -> storage (3,3) (0,3) (3,0) (0,0).
    assert_eq!(sub.raw(), &vec![15, 12, 3, 0]);
}

#[test]
fn splice_writes_in_traversal_order() {
    let mut g: Array2D<u8> = Array2D::from_value(4, 4, 0);
    g.splice_wrapping(3, 5, 0, 2, vec![1, 2, 3, 4]);
    // World x {3,4} -> storage x {3,0}; rows 0 and 1.
    assert_eq!(g.get(3, 0), Some(&1));
    assert_eq!(g.get(0, 0), Some(&2));
    assert_eq!(g.get(3, 1), Some(&3));
    assert_eq!(g.get(0, 1), Some(&4));
    // Untouched cells keep their value.
    assert_eq!(g.get(1, 0), Some(&0));
    assert_eq!(g.get(2, 3), Some(&0));
}

#[test]
fn clone_then_splice_is_identity() {
    // Round trip: clone_sub followed by splice of the identical data back
    // into the same rectangle leaves the grid contents unchanged.
    let data: Vec<u8> = (0..24).map(|v| (v * 7 + 3) % 256_i32).map(|v| v as u8).collect();
    let g = Array2D::from_box(6, 4, data);
    let before = g.raw().clone();
    let sub = g.clone_sub(1, 5, 1, 4).unwrap();
    let mut g = g;
    g.splice_wrapping(1, 5, 1, 4, sub.into_raw());
    assert_eq!(g.raw(), &before);
}

#[test]
fn fast_array2d_masked_access() {
    // An 8 by 4 grid: wrapped coordinates mask the low bits.
    let mut g: FastArray2D<u8> = FastArray2D::from_value(3, 2, 0);
    assert_eq!(g.size(), (8, 4));
    g.set(1, 1, 5);
    assert_eq!(*g.get_wrapping(9, 5), 5);
    g.set_wrapping(17, 9, 6);
    assert_eq!(g.get(1, 1), Some(&6));
    assert_eq!(g.get(8, 0), None);
}

#[test]
fn fast_array2d_from_box_and_clone_sub() {
    let data: Vec<u8> = (0..16).collect();
    let g = FastArray2D::from_box(2, 2, data);
    let sub = g.clone_sub(0, 2, 0, 2).unwrap();
    assert_eq!(sub.raw(), &vec![0, 1, 4, 5]);
    assert!(g.clone_sub(0, 5, 0, 2).is_err());
    let wrapped = g.clone_sub_wrapping(3, 5, 0, 1);
    assert_eq!(wrapped.raw(), &vec![3, 0]);
}

#[test]
fn fast_array2d_splice_round_trip() {
    let mut g: FastArray2D<u8> = FastArray2D::from_value(2, 2, 9);
    g.splice_wrapping(2, 4, 2, 4, vec![1, 2, 3, 4]);
    assert_eq!(g.get(2, 2), Some(&1));
    assert_eq!(g.get(3, 3), Some(&4));
    let before = g.clone_sub(0, 4, 0, 4).unwrap().into_raw();
    let sub = g.clone_sub_wrapping(1, 4, 1, 4);
    g.splice_wrapping(1, 4, 1, 4, sub.into_raw());
    assert_eq!(g.clone_sub(0, 4, 0, 4).unwrap().into_raw(), before);
}

#[test]
fn fast_array2d_visits_values() {
    let data: Vec<u8> = (0..16).collect();
    let g = FastArray2D::from_box(2, 2, data);
    let cells = g.for_each_sub_wrapping(3, 5, 3, 5);
    assert_eq!(cells, vec![(3, 3, 15), (4, 3, 12), (3, 4, 3), (4, 4, 0)]);
}

#[test]
fn array2d_for_each_lists_all_cells() {
    let data: Vec<u8> = (0..6).collect();
    let g = Array2D::from_box(3, 2, data);
    let cells = g.for_each();
    assert_eq!(
        cells,
        vec![(0, 0, 0), (1, 0, 1), (2, 0, 2), (0, 1, 3), (1, 1, 4), (2, 1, 5)]
    );
}

#[test]
fn integer_division_helpers() {
    assert_eq!(ifdiv(7, 8), 0);
    assert_eq!(ifdiv(8, 8), 1);
    assert_eq!(ifdiv(15, 8), 1);
    assert_eq!(icdiv(0, 8), 0);
    assert_eq!(icdiv(1, 8), 1);
    assert_eq!(icdiv(8, 8), 1);
    assert_eq!(icdiv(9, 8), 2);
}

#[test]
fn ceil_log2_values() {
    assert_eq!(ceil_log2(1), 0);
    assert_eq!(ceil_log2(2), 1);
    assert_eq!(ceil_log2(3), 2);
    assert_eq!(ceil_log2(4), 2);
    assert_eq!(ceil_log2(5), 3);
    assert_eq!(ceil_log2(8), 3);
    assert_eq!(ceil_log2(9), 4);
}

#[test]
fn key_history_queue_bits() {
    let mut q: u8 = 0;
    queue_set_u8(&mut q);
    assert_eq!(q, 0b1);
    assert!(queue_pressed_u8(q));
    queue_shift_u8(&mut q);
    assert_eq!(q, 0b11);
    assert!(!queue_pressed_u8(q));
    queue_clear_u8(&mut q);
    assert_eq!(q, 0b10);
    queue_shift_u8(&mut q);
    assert_eq!(q, 0b100);
}

#[test]
fn fast_array2d_from_closure_fills_every_cell() {
    let g = FastArray2D::from_closure(2, 1, |x, y| (x + 10 * y) as u8);
    assert_eq!(g.size(), (4, 2));
    for y in 0..2 {
        for x in 0..4 {
            assert_eq!(g.get(x, y), Some(&((x + 10 * y) as u8)));
        }
    }
}
