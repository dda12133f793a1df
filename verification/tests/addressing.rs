use dmds::{Dim, Error};

fn dim() -> Dim {
    Dim { range: 0..1024, items_per_chunk: 16 }
}

#[test]
fn coordinate_is_offset_over_granularity() {
    let dim = dim();
    assert!(matches!(dim.coordinate_of(0), Ok(0)));
    assert!(matches!(dim.coordinate_of(15), Ok(0)));
    assert!(matches!(dim.coordinate_of(16), Ok(1)));
    assert!(matches!(dim.coordinate_of(1023), Ok(63)));
    let shifted = Dim { range: 100..200, items_per_chunk: 7 };
    assert!(matches!(shifted.coordinate_of(100), Ok(0)));
    assert!(matches!(shifted.coordinate_of(106), Ok(0)));
    assert!(matches!(shifted.coordinate_of(107), Ok(1)));
    assert!(matches!(shifted.coordinate_of(199), Ok(14)));
}

#[test]
fn coordinate_is_the_same_every_time() {
    let dim = dim();
    for value in [0u64, 1, 17, 500, 1023] {
        let first = dim.coordinate_of(value).unwrap();
        let second = dim.coordinate_of(value).unwrap();
        assert_eq!(first, second);
        assert_eq!(first as u64, (value - dim.range.start) / dim.items_per_chunk as u64);
    }
}

#[test]
fn value_outside_the_domain_is_refused() {
    let dim = Dim { range: 10..20, items_per_chunk: 4 };
    match dim.coordinate_of(20) {
        Err(Error::ValueOutOfRange { range, value }) => {
            assert_eq!(range, (10, 20));
            assert_eq!(value, 20);
        }
        _ => panic!("a value at the end of the domain was accepted"),
    }
    match dim.coordinate_of(9) {
        Err(Error::ValueOutOfRange { range, value }) => {
            assert_eq!(range, (10, 20));
            assert_eq!(value, 9);
        }
        _ => panic!("a value before the domain was accepted"),
    }
}

#[test]
fn value_range_is_the_inverse_of_coordinate() {
    let dim = Dim { range: 10..20, items_per_chunk: 4 };
    assert_eq!(dim.value_range_of(0), 10..14);
    assert_eq!(dim.value_range_of(1), 14..18);
    assert_eq!(dim.value_range_of(2), 18..20);
    assert_eq!(dim.value_range_of(3), 20..20);
    assert_eq!(dim.value_range_of(usize::MAX), 20..20);
    for value in 10u64..20 {
        let coordinate = dim.coordinate_of(value).unwrap();
        assert!(dim.value_range_of(coordinate).contains(&value));
    }
}

#[test]
fn descriptor_validity() {
    assert!(dim().is_valid());
    assert!(!Dim { range: 0..1024, items_per_chunk: 0 }.is_valid());
    assert!(!Dim { range: 5..5, items_per_chunk: 1 }.is_valid());
    assert!(!Dim { range: 6..5, items_per_chunk: 1 }.is_valid());
    assert!(Dim { range: 0..u64::MAX, items_per_chunk: 2 }.is_valid());
}

#[test]
fn ranges_intersect() {
    assert_eq!(dmds::range::intersect(&(0..10), &(5..20)), 5..10);
    assert!(dmds::range::is_empty(&dmds::range::intersect(&(0..5), &(5..20))));
    assert!(dmds::range::contains(&(3..4), 3));
    assert!(!dmds::range::contains(&(3..4), 4));
}
