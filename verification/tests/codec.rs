use pliocomp::{pl_l2pi, pl_p2li};

fn encode(input: &[i32]) -> Vec<i16> {
    let n = input.len();
    let mut list: Vec<i16> = vec![0; 7 + 3 * n];
    let last = pl_p2li(input, 0, &mut list, n).unwrap();
    if n > 0 {
        list.truncate(last + 1);
    }
    list
}

fn round_trip(input: &[i32]) -> Vec<i32> {
    let n = input.len();
    let list = encode(input);
    let mut out: Vec<i32> = vec![-1; n];
    let got = pl_l2pi(&list, 0, &mut out, n).unwrap();
    assert_eq!(got, n);
    out
}

#[test]
fn it_works() {
    let input: [i32; 9] = [3, 56, 3343, 22225, 3, 66, 3, 3, 3];
    let xs = 0;
    let mut compressed: [i16; 200] = [0; 200];
    let npix = 9;

    let res = pl_p2li(&input, xs, &mut compressed, npix).unwrap();

    println!("Compressed items: {res}");

    let mut uncompressed: [i32; 10] = [0; 10];

    let res2 = pl_l2pi(&compressed, xs, &mut uncompressed, npix).unwrap();

    println!("Uncompressed items: {res2}");
    assert_eq!(res, 18);
    assert_eq!(res2, 9);
    assert_eq!(&uncompressed[..9], &input[..]);
    assert_eq!(uncompressed[9], 0);
}

#[test]
fn round_trip_of_mixed_row() {
    let input = vec![0, 0, 5, 5, 0, 7, 100000, 0, 0, 0, 1, 1, 0];
    assert_eq!(round_trip(&input), input);
}

#[test]
fn round_trip_replaces_negative_pixels_by_zero() {
    let input = vec![-5, 3, -1, -1, 3, i32::MIN, 9, -2];
    assert_eq!(round_trip(&input), vec![0, 3, 0, 0, 3, 0, 9, 0]);
}

#[test]
fn negative_pixels_join_the_zero_run_next_to_them() {
    assert_eq!(encode(&[-3, 0, -7]), encode(&[0, 0, 0]));
    assert_eq!(encode(&[0, 0, 0])[7..], [3]);
}

#[test]
fn empty_row_writes_nothing() {
    let mut list: [i16; 4] = [11, 12, 13, 14];
    assert_eq!(pl_p2li(&[], 0, &mut list, 0), Ok(0));
    assert_eq!(list, [11, 12, 13, 14]);
    let mut none: [i16; 0] = [];
    assert_eq!(pl_p2li(&[1, 2], 7, &mut none, 0), Ok(0));
    let mut out: [i32; 3] = [21, 22, 23];
    assert_eq!(pl_l2pi(&list, 0, &mut out, 0), Ok(0));
    assert_eq!(pl_l2pi(&[], 0, &mut out, 0), Ok(0));
    assert_eq!(out, [21, 22, 23]);
}

#[test]
fn long_zero_row_is_chained_zero_runs() {
    let input = vec![0; 10000];
    let list = encode(&input);
    assert_eq!(list[7..], [4094, 4094, 1812]);
    assert_eq!(list[3], 9);
    assert_eq!(round_trip(&input), input);
}

#[test]
fn zero_row_at_the_chunk_limit() {
    assert_eq!(encode(&vec![0; 4094])[7..], [4094]);
    assert_eq!(encode(&vec![0; 4095])[7..], [4094, 1]);
    assert_eq!(encode(&vec![0; 8188])[7..], [4094, 4094]);
    assert_eq!(round_trip(&vec![0; 4095]), vec![0; 4095]);
}

#[test]
fn constant_row_round_trips_whatever_its_length() {
    for n in [1usize, 2, 4094, 4095, 4096, 8190, 8191, 20000] {
        for v in [1, 2, 4096, 4097, 70000] {
            let input = vec![v; n];
            assert_eq!(round_trip(&input), input);
        }
    }
}

#[test]
fn constant_row_is_chained_high_runs() {
    let list = encode(&vec![9; 9000]);
    assert_eq!(list[7..], [8192 + 8, 16384 + 4095, 16384 + 4095, 16384 + 810]);
}

#[test]
fn row_of_ones_needs_no_change_of_the_high_value() {
    assert_eq!(encode(&[1, 1, 1])[7..], [16384 + 3]);
    assert_eq!(encode(&[1])[7..], [16384 + 1]);
}

#[test]
fn large_jump_uses_set_high() {
    let input = vec![0, 0, 5000, 5000, 0, 0];
    let list = encode(&input);
    assert_eq!(list[7..], [4096 + 904, 1, 2, 16384 + 2, 2]);
    assert_eq!(round_trip(&input), input);
    let down = vec![100000, 3, 100000];
    assert_eq!(round_trip(&down), down);
}

#[test]
fn single_pixel_behind_zeros_is_fused_into_the_zero_run() {
    let input = vec![0, 0, 0, 6, 0];
    let list = encode(&input);
    assert_eq!(list[7..], [8192 + 5, 20480 + 4, 1]);
    assert_eq!(round_trip(&input), input);
}

#[test]
fn single_pixel_behind_a_full_zero_chunk() {
    let mut input = vec![0; 4094];
    input.push(2);
    assert_eq!(encode(&input)[7..], [8192 + 1, 20480 + 4095]);
    assert_eq!(round_trip(&input), input);
    let mut longer = vec![0; 4095];
    longer.push(2);
    assert_eq!(encode(&longer)[7..], [8192 + 1, 4094, 20480 + 2]);
    assert_eq!(round_trip(&longer), longer);
}

#[test]
fn alternating_single_pixels_take_one_word_each() {
    let input = vec![3, 56, 3343, 7, 8, 4000, 1];
    let list = encode(&input);
    assert_eq!(
        list[7..],
        [
            24576 + 2,
            24576 + 53,
            24576 + 3287,
            28672 + 3336,
            24576 + 1,
            24576 + 3992,
            28672 + 3999
        ]
    );
    assert_eq!(round_trip(&input), input);
}

#[test]
fn alternating_zero_and_value_round_trips() {
    let input: Vec<i32> = (0..1000).map(|k| if k % 2 == 0 { 0 } else { k }).collect();
    assert_eq!(round_trip(&input), input);
    assert_eq!(encode(&input).len(), 7 + 1 + 2 * 499);
}

#[test]
fn list_longer_than_fifteen_bits_splits_its_length() {
    let input: Vec<i32> = (0..40000).map(|k| 1 + (k % 2)).collect();
    let list = encode(&input);
    assert_eq!(list.len(), 7 + 40000);
    assert_eq!(list[3], (40006 % 32768) as i16);
    assert_eq!(list[4], 1);
    assert_eq!(round_trip(&input), input);
}

#[test]
fn worst_case_row_fills_three_words_a_pixel() {
    let input = vec![5000, 10000, 5000, 10000];
    let list = encode(&input);
    assert_eq!(list.len(), 7 + 3 * 4);
    assert_eq!(round_trip(&input), input);
}

#[test]
fn largest_set_high_value_round_trips() {
    let input = vec![134217727, 0, 134217727 + 4095, i32::MAX - 1];
    let n = input.len();
    let mut list: Vec<i16> = vec![0; 7 + 3 * n];
    let res = pl_p2li(&input, 0, &mut list, n);
    assert_eq!(res, Err(pliocomp::PlioError::ValueOutOfRange));
    let climb = vec![134217727, 134217727 + 4095, 134217727 + 8190];
    assert_eq!(encode(&climb)[7..], [4096 + 4095, 32767, 16384 + 1, 24576 + 4095, 24576 + 4095]);
    assert_eq!(round_trip(&climb), climb);
}

#[test]
fn window_of_an_encoded_row() {
    let input = vec![4, 4, 0, 9, 9, 9, 0, 0, 2, 70000];
    let list = encode(&input);
    let mut out: [i32; 4] = [-1; 4];
    assert_eq!(pl_l2pi(&list, 3, &mut out, 4), Ok(4));
    assert_eq!(out, [0, 9, 9, 9]);
    assert_eq!(pl_l2pi(&list, 9, &mut out, 4), Ok(4));
    assert_eq!(out, [2, 70000, 0, 0]);
    assert_eq!(pl_l2pi(&list, -2, &mut out, 4), Ok(4));
    assert_eq!(out, [4, 4, 0, 0]);
}
