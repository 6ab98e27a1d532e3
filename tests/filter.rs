use chameleon::filter::{fpaeth, rfaverage, rfpaeth, rfsub, rfup, unfilter_row, Filters};

const ROW: [u8; 12] = [0x20, 0x1e, 0x69, 0xfe, 0xda, 0xa0, 0xee, 0xe8, 0xb9, 0x99, 0x7f, 0x5c];
const PRIOR: [u8; 12] = [0x7c, 0x29, 0x99, 0xfd, 0xaf, 0xe5, 0x93, 0x25, 0x3c, 0xd6, 0x54, 0xaf];

#[test]
fn paeth_defilter_inverts_filter() {
    let filtered = [0xa4, 0xf5, 0xd0, 0x82, 0x2b, 0x07, 0x5b, 0xc3, 0x7d, 0xab, 0x97, 0xa3];
    assert_eq!(rfpaeth(&filtered, &PRIOR, 3), ROW.to_vec());
}

#[test]
fn average_defilter() {
    let filtered = [0xe2, 0x0a, 0x1d, 0x70, 0x74, 0xf9, 0x26, 0x69, 0x4b, 0xb7, 0xe1, 0xa8];
    assert_eq!(rfaverage(&filtered, &PRIOR, 3), ROW.to_vec());
}

#[test]
fn average_uses_nine_bit_sum() {
    // (200 + 200) / 2 = 200, not (400 mod 256) / 2 = 72.
    assert_eq!(rfaverage(&[200, 0], &[0, 200], 1), vec![200, 200]);
    assert_eq!(rfaverage(&[0, 0], &[200, 200], 1), vec![100, 150]);
}

#[test]
fn sub_defilter() {
    let filtered = [0x20, 0x1e, 0x69, 0xde, 0xbc, 0x37, 0xf0, 0x0e, 0x19, 0xab, 0x97, 0xa3];
    assert_eq!(rfsub(&filtered, 3), ROW.to_vec());
}

#[test]
fn up_defilter() {
    let filtered = [0xa4, 0xf5, 0xd0, 0x01, 0x2b, 0xbb, 0x5b, 0xc3, 0x7d, 0xc3, 0x2b, 0xad];
    assert_eq!(rfup(&filtered, &PRIOR), ROW.to_vec());
}

#[test]
fn none_filter_keeps_bytes() {
    assert_eq!(unfilter_row(0, &ROW, &PRIOR, 3), ROW.to_vec());
}

#[test]
fn paeth_predictor_ties() {
    // p = a + b - c; ties go to a, then b.
    assert_eq!(fpaeth(10, 10, 10), 10);
    assert_eq!(fpaeth(1, 2, 3), 1);
    assert_eq!(fpaeth(5, 9, 5), 9);
    assert_eq!(fpaeth(9, 5, 5), 9);
    assert_eq!(fpaeth(100, 50, 200), 50);
    assert_eq!(fpaeth(0, 0, 255), 0);
    assert_eq!(fpaeth(50, 100, 60), 100);
}

#[test]
fn filter_bytes() {
    assert_eq!(Filters::from_byte(0), Some(Filters::NoFilter));
    assert_eq!(Filters::from_byte(4), Some(Filters::Paeth));
    assert_eq!(Filters::from_byte(5), None);
}
