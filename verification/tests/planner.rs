use dmds::world::{Select, Shape};
use dmds::Dim;

fn grid() -> [Dim; 2] {
    [Dim { range: 0..1024, items_per_chunk: 16 }, Dim { range: 0..128, items_per_chunk: 8 }]
}

#[test]
fn odometer_walks_axis_zero_fastest() {
    let shape = Shape::new([0usize, 5], [2usize, 7]);
    let mut it = shape.iter();
    assert_eq!(it.next(), Some([0, 5]));
    assert_eq!(it.next(), Some([1, 5]));
    assert_eq!(it.next(), Some([0, 6]));
    assert_eq!(it.next(), Some([1, 6]));
    assert!(!it.is_done() || true);
    assert_eq!(it.next(), None);
    assert_eq!(it.next(), None);
    assert!(it.is_done());
}

#[test]
fn odometer_carries_over_three_axes() {
    let shape = Shape::new([1usize, 0, 7], [3usize, 2, 8]);
    let mut it = shape.iter();
    let mut seen = Vec::new();
    while let Some(pos) = it.next() {
        seen.push(pos);
    }
    assert_eq!(seen, vec![[1, 0, 7], [2, 0, 7], [1, 1, 7], [2, 1, 7]]);
}

#[test]
fn walk_can_start_over() {
    let shape = Shape::new([4usize], [6usize]);
    let mut it = shape.iter();
    assert_eq!(it.next(), Some([4]));
    assert_eq!(it.next(), Some([5]));
    assert_eq!(it.next(), None);
    it.reset();
    assert_eq!(it.next(), Some([4]));
    let mut again = shape.iter();
    assert_eq!(again.next(), Some([4]));
}

#[test]
fn an_empty_axis_empties_the_plan() {
    let shape = Shape::new([0usize, 3], [5usize, 3]);
    assert!(shape.is_empty());
    let mut it = shape.iter();
    assert!(it.is_done());
    assert_eq!(it.next(), None);
    assert!(!Shape::new([0usize, 3], [5usize, 4]).is_empty());
}

#[test]
fn every_coordinate_of_the_box_comes_once() {
    let shape = Shape::new([2usize, 1], [5usize, 4]);
    let mut it = shape.iter();
    let mut seen = Vec::new();
    while let Some(pos) = it.next() {
        assert!(shape.contains_coord(&pos));
        assert!(!seen.contains(&pos));
        seen.push(pos);
    }
    assert_eq!(seen.len(), 9);
    assert!(!shape.contains_coord(&[5, 1]));
    assert!(!shape.contains_coord(&[1, 1]));
}

#[test]
fn plan_of_a_box() {
    let select = Select::plan(&grid(), &[Some(0..10), Some(0..10)]);
    let shape = select.shape();
    assert_eq!(shape.start, [0, 0]);
    assert_eq!(shape.end, [1, 2]);
    assert!(select.matches(&[5, 3]));
    assert!(!select.matches(&[10, 3]));
    assert!(!select.matches(&[5, 10]));
}

#[test]
fn plan_without_a_filter_spans_the_domain() {
    let select = Select::plan(&grid(), &[Some(20..30), None]);
    let shape = select.shape();
    assert_eq!(shape.start, [1, 0]);
    assert_eq!(shape.end, [2, 16]);
    assert!(select.matches(&[20, 127]));
    assert!(!select.matches(&[5, 3]));
}

#[test]
fn plan_clips_the_filter_to_the_domain() {
    let select = Select::plan(&grid(), &[Some(1000..5000), Some(120..121)]);
    let shape = select.shape();
    assert_eq!(shape.start, [62, 15]);
    assert_eq!(shape.end, [64, 16]);
    assert!(select.matches(&[1023, 120]));
    assert!(!select.matches(&[1024, 120]));
}

#[test]
fn plan_of_a_filter_outside_the_domain_is_empty() {
    let select = Select::plan(&grid(), &[Some(2000..3000), None]);
    assert!(select.shape().is_empty());
    let select = Select::plan(&grid(), &[Some(7..7), None]);
    assert!(select.shape().is_empty());
    assert!(!select.matches(&[7, 0]));
}
