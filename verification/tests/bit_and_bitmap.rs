use dsalib::bit::div;
use dsalib::bit::max;
use dsalib::bit::swap;
use dsalib::bitmap::BitMap;

#[test]
fn test_swap() {
    let mut a = 10;
    let mut b = 5;
    swap(&mut a, &mut b);
    assert_eq!(a, 5);
    assert_eq!(b, 10);
}

#[test]
fn test_max() {
    let a = 50;
    let b = 25;
    assert_eq!(max(a, b), 50);
}

#[test]
fn test_max_of_equal_values() {
    assert_eq!(max(7, 7), 7);
}

#[test]
fn test_div_is_empty() {
    assert_eq!(div(10, 3), None);
}

#[test]
fn test_bitmap() {
    let mut bitmap = BitMap::new(1000);
    bitmap.add(10);
    bitmap.add(50);
    bitmap.add(1000);
    assert_eq!(bitmap.contains(10), true);
    assert_eq!(bitmap.contains(100), false);
    assert_eq!(bitmap.remove(50), true);
    assert_eq!(bitmap.contains(50), false);
}

#[test]
fn test_bitmap_reverse_and_readd() {
    let mut bitmap = BitMap::new(100);
    bitmap.reverse(3);
    assert_eq!(bitmap.contains(3), true);
    bitmap.reverse(3);
    assert_eq!(bitmap.contains(3), false);
    assert_eq!(bitmap.add(3), true);
    assert_eq!(bitmap.add(3), false);
    assert_eq!(bitmap.remove(4), false);
    assert_eq!(bitmap.contains(100), false);
    bitmap.add(100);
    assert_eq!(bitmap.contains(100), true);
}
