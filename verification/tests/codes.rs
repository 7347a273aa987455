//! Centroid ids in every width.
use maxsim_lut::Codes;

#[test]
fn ids_read_alike_in_every_width() {
    let all = [Codes::U32(&[4, 0, 9]), Codes::I64(&[4, 0, 9]), Codes::Usize(&[4, 0, 9])];
    for codes in all {
        assert_eq!(codes.len(), Some(3));
        assert_eq!((codes.id(0), codes.id(1), codes.id(2)), (4, 0, 9));
        assert!(codes.in_range(0, 5) && !codes.in_range(0, 4) && !codes.in_range(2, 9));
    }
    assert_eq!(Codes::Absent.len(), None);
    assert_eq!(Codes::Absent.id(7), 0);
}

#[test]
fn negative_ids_are_never_in_range() {
    let codes = Codes::I64(&[-1, i64::MIN]);
    assert_eq!(codes.id(0), usize::MAX);
    assert!(!codes.in_range(0, usize::MAX) && !codes.in_range(1, usize::MAX));
}
