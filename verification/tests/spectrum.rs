use humctrl::{first_half, pad_zero};

#[test]
fn first_half_keeps_lower_bins() {
    let dft: Vec<(f32, f32)> = vec![(1.0, 0.0), (2.0, 1.0), (3.0, 0.5), (4.0, -1.0)];
    assert_eq!(first_half(&dft), vec![(1.0, 0.0), (2.0, 1.0)]);
}

#[test]
fn first_half_of_odd_length_rounds_down() {
    let v: Vec<u32> = vec![7, 8, 9, 10, 11];
    assert_eq!(first_half(&v), vec![7, 8]);
}

#[test]
fn first_half_of_single_and_empty() {
    let one: Vec<u32> = vec![5];
    assert!(first_half(&one).is_empty());
    let none: Vec<u32> = Vec::new();
    assert!(first_half(&none).is_empty());
}

#[test]
fn pad_zero_appends_zeros() {
    let sig: Vec<(f32, f32)> = vec![(1.0, 0.0), (0.5, 0.5)];
    let out = pad_zero(&sig, 3, (0.0, 0.0));
    assert_eq!(
        out,
        vec![(1.0, 0.0), (0.5, 0.5), (0.0, 0.0), (0.0, 0.0), (0.0, 0.0)]
    );
}

#[test]
fn pad_zero_with_nothing_to_add() {
    let sig: Vec<i32> = vec![3, -4];
    assert_eq!(pad_zero(&sig, 0, 0), vec![3, -4]);
    let empty: Vec<i32> = Vec::new();
    assert_eq!(pad_zero(&empty, 2, 0), vec![0, 0]);
}

#[test]
fn pad_zero_then_first_half_gives_signal() {
    // padding by the signal's own length and taking the first half undoes the padding
    let sig: Vec<u8> = vec![1, 2, 3];
    let padded = pad_zero(&sig, 3, 0);
    assert_eq!(first_half(&padded), sig);
}
