use pliocomp::encoder::clamp_pixel;
use pliocomp::{pl_p2li, PlioError};

#[test]
fn header_of_a_new_list() {
    let mut list: [i16; 12] = [5; 12];
    assert_eq!(pl_p2li(&[7, 7], 0, &mut list, 2), Ok(8));
    assert_eq!(list, [0, 7, -100, 8, 0, 0, 0, 8192 + 6, 16384 + 2, 5, 5, 5]);
}

#[test]
fn too_small_destination_is_refused() {
    let input: [i32; 3] = [1, 2, 3];
    let mut list: [i16; 9] = [0; 9];
    assert_eq!(pl_p2li(&input, 0, &mut list, 3), Err(PlioError::CapacityExceeded));
    let mut list: [i16; 10] = [0; 10];
    assert_eq!(pl_p2li(&input, 0, &mut list, 3), Ok(9));
}

#[test]
fn destination_without_room_for_the_header_is_refused() {
    let mut list: [i16; 6] = [0; 6];
    assert_eq!(pl_p2li(&[0], 0, &mut list, 1), Err(PlioError::CapacityExceeded));
    let mut list: [i16; 7] = [0; 7];
    assert_eq!(pl_p2li(&[0], 0, &mut list, 1), Err(PlioError::CapacityExceeded));
    let mut list: [i16; 8] = [0; 8];
    assert_eq!(pl_p2li(&[0], 0, &mut list, 1), Ok(7));
}

#[test]
fn pixel_above_the_set_high_range_is_refused() {
    let mut list: [i16; 20] = [0; 20];
    assert_eq!(pl_p2li(&[200000000], 0, &mut list, 1), Err(PlioError::ValueOutOfRange));
    assert_eq!(pl_p2li(&[134217728], 0, &mut list, 1), Err(PlioError::ValueOutOfRange));
    assert_eq!(pl_p2li(&[134217727], 0, &mut list, 1), Ok(9));
    assert_eq!(list[7..10], [4096 + 4095, 32767, 16384 + 1]);
}

#[test]
fn missing_room_comes_before_a_pixel_out_of_range() {
    let mut list: [i16; 8] = [0; 8];
    assert_eq!(pl_p2li(&[200000000, 1], 0, &mut list, 2), Err(PlioError::CapacityExceeded));
    let mut list: [i16; 10] = [0; 10];
    assert_eq!(pl_p2li(&[3, 200000000], 0, &mut list, 2), Err(PlioError::CapacityExceeded));
    let mut list: [i16; 11] = [0; 11];
    assert_eq!(pl_p2li(&[3, 200000000], 0, &mut list, 2), Err(PlioError::ValueOutOfRange));
}

#[test]
fn encoding_starts_at_the_given_offset() {
    let source = [9, 9, 4, 4, 4, 0, 9];
    let mut list: [i16; 20] = [0; 20];
    assert_eq!(pl_p2li(&source, 2, &mut list, 4), Ok(9));
    assert_eq!(list[7..10], [8192 + 3, 16384 + 3, 1]);
    let mut direct: [i16; 20] = [0; 20];
    assert_eq!(pl_p2li(&[4, 4, 4, 0], 0, &mut direct, 4), Ok(9));
    assert_eq!(list, direct);
}

#[test]
fn clamp_pixel_keeps_what_is_not_negative() {
    assert_eq!(clamp_pixel(-1), 0);
    assert_eq!(clamp_pixel(i32::MIN), 0);
    assert_eq!(clamp_pixel(0), 0);
    assert_eq!(clamp_pixel(17), 17);
    assert_eq!(clamp_pixel(i32::MAX), i32::MAX);
}

#[test]
fn refused_for_room_leaves_the_words_that_fit_and_no_header() {
    let mut list: [i16; 9] = [-9; 9];
    assert_eq!(pl_p2li(&[1, 2, 3], 0, &mut list, 3), Err(PlioError::CapacityExceeded));
    assert_eq!(list, [-9, -9, -9, -9, -9, -9, -9, 16384 + 1, 24576 + 1]);
    let mut short: [i16; 5] = [-9; 5];
    assert_eq!(pl_p2li(&[1, 2, 3], 0, &mut short, 3), Err(PlioError::CapacityExceeded));
    assert_eq!(short, [-9; 5]);
    let mut cut: [i16; 8] = [-9; 8];
    assert_eq!(pl_p2li(&[70000], 0, &mut cut, 1), Err(PlioError::CapacityExceeded));
    assert_eq!(cut, [-9, -9, -9, -9, -9, -9, -9, 4096 + 368]);
}

#[test]
fn refused_for_a_pixel_leaves_the_words_and_no_header() {
    let mut list: [i16; 12] = [-9; 12];
    assert_eq!(pl_p2li(&[3, 200000000], 0, &mut list, 2), Err(PlioError::ValueOutOfRange));
    assert_eq!(
        list,
        [-9, -9, -9, -9, -9, -9, -9, 24576 + 2, 4096 + 512, -16708, 16384 + 1, -9]
    );
}

#[test]
fn long_runs_stop_where_the_room_ends() {
    let mut list: [i16; 9] = [-9; 9];
    assert_eq!(pl_p2li(&vec![0; 20000], 0, &mut list, 20000), Err(PlioError::CapacityExceeded));
    assert_eq!(list[7..], [4094, 4094]);
    let mut list: [i16; 9] = [-9; 9];
    assert_eq!(pl_p2li(&vec![1; 20000], 0, &mut list, 20000), Err(PlioError::CapacityExceeded));
    assert_eq!(list[7..], [16384 + 4095, 16384 + 4095]);
}
