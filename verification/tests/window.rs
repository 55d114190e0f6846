use humctrl::{Request, Rotation};

fn is_blocking(r: &Request, n: usize) -> bool {
    match r {
        Request::Blocking(m) => *m == n,
        Request::Poll => false,
    }
}

#[test]
fn new_rotation_asks_for_a_blocking_read_of_a_window() {
    let rot: Rotation<u32> = Rotation::new(8, 4);
    assert!(is_blocking(&rot.request(), 8));
    assert_eq!(rot.width(), 8);
    assert_eq!(rot.jump(), 4);
}

#[test]
fn first_window_is_first_width_samples() {
    let mut rot: Rotation<u32> = Rotation::new(4, 2);
    let samples: Vec<u32> = vec![10, 11, 12, 13, 99];
    rot.first_window(&samples);
    assert_eq!(rot.window(), &[10, 11, 12, 13][..]);
    assert!(matches!(rot.request(), Request::Poll));
    // the next window needs `jump` more samples
    assert_eq!(rot.to_read(100), Some(2));
}

#[test]
fn to_read_is_limited_by_what_is_ready() {
    let mut rot: Rotation<u32> = Rotation::new(6, 3);
    rot.first_window(&[1, 2, 3, 4, 5, 6]);
    assert_eq!(rot.to_read(0), None);
    assert_eq!(rot.to_read(-5), None);
    assert_eq!(rot.to_read(1), Some(1));
    assert_eq!(rot.to_read(3), Some(3));
    assert_eq!(rot.to_read(1000), Some(3));
}

#[test]
fn windows_slide_by_jump() {
    let mut rot: Rotation<u32> = Rotation::new(4, 2);
    rot.first_window(&[0, 1, 2, 3]);
    assert_eq!(rot.window(), &[0, 1, 2, 3][..]);
    // one sample is not enough for the next window
    assert!(!rot.push_samples(&[4], 1));
    assert_eq!(rot.to_read(10), Some(1));
    assert!(rot.push_samples(&[5, 77], 1));
    assert_eq!(rot.window(), &[2, 3, 4, 5][..]);
    assert!(rot.push_samples(&[6, 7], 2));
    assert_eq!(rot.window(), &[4, 5, 6, 7][..]);
}

#[test]
fn windows_slide_with_several_rows() {
    // width 6, jump 2: three rows
    let mut rot: Rotation<i64> = Rotation::new(6, 2);
    rot.first_window(&[1, 2, 3, 4, 5, 6]);
    assert_eq!(rot.window(), &[1, 2, 3, 4, 5, 6][..]);
    assert!(rot.push_samples(&[7, 8], 2));
    assert_eq!(rot.window(), &[3, 4, 5, 6, 7, 8][..]);
    assert!(rot.push_samples(&[9, 10], 2));
    assert_eq!(rot.window(), &[5, 6, 7, 8, 9, 10][..]);
    assert!(rot.push_samples(&[11, 12], 2));
    assert_eq!(rot.window(), &[7, 8, 9, 10, 11, 12][..]);
}

#[test]
fn jump_equal_to_width_gives_disjoint_windows() {
    let mut rot: Rotation<u8> = Rotation::new(3, 3);
    rot.first_window(&[1, 2, 3]);
    assert_eq!(rot.window(), &[1, 2, 3][..]);
    assert_eq!(rot.to_read(9), Some(3));
    assert!(rot.push_samples(&[4, 5, 6], 3));
    assert_eq!(rot.window(), &[4, 5, 6][..]);
}

#[test]
fn jump_not_dividing_width_keeps_stale_samples() {
    // width 3, jump 2: one row; the next window still starts with an old sample
    let mut rot: Rotation<u8> = Rotation::new(3, 2);
    rot.first_window(&[1, 2, 3]);
    assert_eq!(rot.window(), &[1, 2, 3][..]);
    assert!(rot.push_samples(&[4, 5], 2));
    assert_eq!(rot.window(), &[1, 4, 5][..]);
}

#[test]
fn init_append_rotate_by_hand() {
    let mut rot: Rotation<u8> = Rotation::new(4, 2);
    rot.init(9);
    assert!(matches!(rot.request(), Request::Poll));
    assert_eq!(rot.window(), &[9, 9, 9, 9][..]);
    rot.append(1);
    rot.append(2);
    rot.append(3);
    // row 0 got all three; row 1 started at the third sample
    assert_eq!(rot.window(), &[3, 9, 9, 9][..]);
    rot.append(4);
    rot.rotate();
    assert_eq!(rot.window(), &[1, 2, 3, 4][..]);
    assert_eq!(rot.to_read(5), Some(2));
}

#[test]
fn to_read_with_a_huge_count_is_the_room_left() {
    let mut rot: Rotation<u16> = Rotation::new(4, 1);
    rot.first_window(&[1, 2, 3, 4]);
    assert_eq!(rot.to_read(i64::MAX), Some(1));
    assert!(rot.push_samples(&[5], 1));
    assert_eq!(rot.window(), &[2, 3, 4, 5][..]);
}

#[test]
fn windows_come_after_width_then_every_jump_samples() {
    // width 6, jump 2, one sample per read after the first window:
    // windows arrive when the total read reaches 6, 8, 10, 12
    let mut rot: Rotation<u32> = Rotation::new(6, 2);
    rot.first_window(&[0, 1, 2, 3, 4, 5]);
    let mut total: u32 = 6;
    let mut windows = 1;
    for x in 6u32..13 {
        let n = rot.to_read(1).unwrap();
        assert_eq!(n, 1);
        let ready = rot.push_samples(&[x], n);
        total += 1;
        assert_eq!(ready, (total - 6) % 2 == 0);
        if ready {
            windows += 1;
            let start = total - 6;
            let expected: Vec<u32> = (start..total).collect();
            assert_eq!(rot.window(), &expected[..]);
        }
    }
    assert_eq!(total, 13);
    assert_eq!(windows, (13 - 6) / 2 + 1);
}

#[test]
fn every_read_of_jump_samples_gives_a_window() {
    let mut rot: Rotation<u32> = Rotation::new(8, 4);
    rot.first_window(&[0, 1, 2, 3, 4, 5, 6, 7]);
    let mut prev: Vec<u32> = rot.window().to_vec();
    for k in 0u32..3 {
        let n = rot.to_read(50).unwrap();
        assert_eq!(n, 4);
        let base = 8 + 4 * k;
        let chunk: Vec<u32> = (base..base + 4).collect();
        assert!(rot.push_samples(&chunk, n));
        let now = rot.window().to_vec();
        // consecutive windows overlap by width - jump
        assert_eq!(&now[..4], &prev[4..]);
        prev = now;
    }
}

#[test]
fn append_without_rows_only_advances() {
    let mut rot: Rotation<u8> = Rotation::new(4, 0);
    rot.append(7);
    assert!(is_blocking(&rot.request(), 4));
    assert_eq!(rot.to_read(10), Some(3));
}
