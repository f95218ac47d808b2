use pliocomp::layout::{data_of, opcode_of, HEADER_LEN, HIGH_MAX, LAST_MAX, VERSION};
use pliocomp::{Data, Header};

#[test]
fn opcode_is_the_top_four_bits() {
    assert_eq!(opcode_of(0), 0);
    assert_eq!(opcode_of(4095), 0);
    assert_eq!(opcode_of(4096), 1);
    assert_eq!(opcode_of(16384 + 77), 4);
    assert_eq!(opcode_of(i16::MAX), 7);
    assert_eq!(opcode_of(-1), 15);
    assert_eq!(opcode_of(i16::MIN), 8);
    assert_eq!(opcode_of(-4096), 15);
    assert_eq!(opcode_of(-4097), 14);
}

#[test]
fn data_is_the_bottom_twelve_bits() {
    assert_eq!(data_of(0), 0);
    assert_eq!(data_of(4095), 4095);
    assert_eq!(data_of(4096), 0);
    assert_eq!(data_of(16384 + 77), 77);
    assert_eq!(data_of(i16::MAX), 4095);
    assert_eq!(data_of(-1), 4095);
    assert_eq!(data_of(i16::MIN), 0);
    assert_eq!(data_of(-4097), 4095);
}

#[test]
fn constants_of_the_layout() {
    assert_eq!(HEADER_LEN, 7);
    assert_eq!(VERSION, -100);
    assert_eq!(HIGH_MAX, 32767 * 4096 + 4095);
    assert_eq!(LAST_MAX, 32767 + 32767 * 32768);
}

#[test]
fn header_of_the_current_layout() {
    let header = Header::parse(&[2, 7, -100, 12, 3, 40, 1, 0]).unwrap();
    assert_eq!(
        header,
        Header::Current {
            refs: 2,
            header_len: 7,
            version: -100,
            last: 12 + 3 * 32768,
            buffer_len: 40 + 32768
        }
    );
    assert_eq!(header.first_index(), 7);
    assert_eq!(header.min_first_index(), 7);
    assert_eq!(header.last_index(), 98316);
}

#[test]
fn header_of_the_legacy_layout() {
    let header = Header::parse(&[1, 30, 9]).unwrap();
    assert_eq!(header, Header::Legacy { refs: 1, buffer_len: 30, last: 9 });
    assert_eq!(header.first_index(), 3);
    assert_eq!(header.min_first_index(), 3);
    assert_eq!(header.last_index(), 9);
}

#[test]
fn header_needs_its_words() {
    assert_eq!(Header::parse(&[]), None);
    assert_eq!(Header::parse(&[0, 0]), None);
    assert_eq!(Header::parse(&[0, 0, 0]), None);
    assert_eq!(Header::parse(&[0, 0, -100, 0, 0, 0]), None);
    assert!(Header::parse(&[0, 0, 0, 0, 0, 0, 0]).is_some());
    assert!(Header::parse(&[0, 0, 1]).is_some());
}

#[test]
fn data_holds_a_row() {
    let row = Data { d: vec![1, 2, 3] };
    let copy = row.clone();
    assert_eq!(copy.d, [1, 2, 3]);
    assert_eq!(format!("{:?}", row), "Data { d: [1, 2, 3] }");
}
