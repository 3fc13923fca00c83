use tensor_tape::interpolation::{clamp_window, Resize, Window};

#[test]
fn windows_stop_at_the_edges() {
    assert_eq!(clamp_window(-2, 2, 8), Window { lo: 0, len: 3 });
    assert_eq!(clamp_window(3, 6, 8), Window { lo: 3, len: 4 });
    assert_eq!(clamp_window(6, 11, 8), Window { lo: 6, len: 2 });
    assert_eq!(clamp_window(-5, 0, 1), Window { lo: 0, len: 1 });
}

#[test]
fn taps_lie_where_the_grid_says() {
    let r = Resize { src: 3, dst: 2, dim: 4 };
    let windows = vec![Window { lo: 0, len: 2 }, Window { lo: 1, len: 2 }];
    // row 2, columns 1 and 2, element 3 of a [3, 3, 4] grid
    assert_eq!(r.horizontal_taps(&windows, 2, 1, 3), vec![31, 35]);
    // rows 0 and 1, column 1, element 0 of a [3, 2, 4] grid
    assert_eq!(r.vertical_taps(&windows, 0, 1, 0), vec![4, 12]);
    assert_eq!(r.out_place(1, 1, 3, 2), 15);
}

#[test]
fn no_two_elements_share_a_place() {
    let r = Resize { src: 2, dst: 3, dim: 2 };
    let mut seen = [false; 18];
    for row in 0..3 {
        for col in 0..3 {
            for d in 0..2 {
                let p = r.out_place(row, col, d, 3);
                assert!(!seen[p]);
                seen[p] = true;
            }
        }
    }
    assert!(seen.iter().all(|x| *x));
}

#[test]
fn channels_stay_apart() {
    let r = Resize { src: 3, dst: 2, dim: 4 };
    let windows = vec![Window { lo: 0, len: 2 }, Window { lo: 1, len: 2 }];
    for d in 0..4 {
        for row in 0..2 {
            for col in 0..2 {
                assert!(r.vertical_taps(&windows, row, col, d).iter().all(|p| p % 4 == d));
                assert!(r.horizontal_taps(&windows, row, col, d).iter().all(|p| p % 4 == d));
            }
        }
    }
}
