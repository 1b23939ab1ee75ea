use rene::comparison::Comparison;
use rene::fraction::{integer_to_bytes, is_zero_bytes, trim, Fraction};
use rene::geometries::Point;
use rene::operations::{cross_multiply, intersect_crossing_segments, orient, to_sorted_pair};
use rene::oriented::Orientation;

fn ratio(numerator: i64, denominator: i64) -> Fraction {
    Fraction::from_integers(numerator, denominator).unwrap()
}

fn whole(x: i64, y: i64) -> Point {
    Point::new(ratio(x, 1), ratio(y, 1))
}

#[test]
fn fraction_with_zero_denominator_is_refused() {
    assert!(Fraction::from_integers(1, 0).is_none());
    assert!(Fraction::new(vec![1], vec![0]).is_none());
    assert!(Fraction::new(vec![1], vec![0, 0, 0]).is_none());
}

#[test]
fn fraction_without_bytes_is_refused() {
    assert!(Fraction::new(Vec::new(), vec![1]).is_none());
    assert!(Fraction::new(vec![1], Vec::new()).is_none());
}

#[test]
fn fraction_is_kept_in_lowest_terms() {
    let fraction = Fraction::new(vec![5, 0, 0], vec![255, 255]).unwrap();
    assert_eq!(fraction.numerator(), &vec![251]);
    assert_eq!(fraction.denominator(), &vec![1]);
    assert!(fraction == ratio(-5, 1));
    let reduced = Fraction::new(vec![6, 0], vec![252, 255]).unwrap();
    assert_eq!(reduced.numerator(), &vec![253]);
    assert_eq!(reduced.denominator(), &vec![2]);
    let zero = Fraction::from_integers(0, -7).unwrap();
    assert_eq!(zero.numerator(), &vec![0]);
    assert_eq!(zero.denominator(), &vec![1]);
    let large = Fraction::from_integers(1 << 40, 1 << 20).unwrap();
    assert_eq!(large.numerator(), &vec![0, 0, 16]);
    assert_eq!(large.denominator(), &vec![1]);
    let sum = cross_multiply(
        &whole(0, 0),
        &Point::new(ratio(1, 6), ratio(0, 1)),
        &whole(0, 0),
        &Point::new(ratio(0, 1), ratio(3, 1)),
    );
    assert_eq!(sum.numerator(), &vec![1]);
    assert_eq!(sum.denominator(), &vec![2]);
}

#[test]
fn fractions_are_compared_by_value() {
    assert!(ratio(1, 2) == ratio(2, 4));
    assert!(ratio(1, -2) == ratio(-1, 2));
    assert!(ratio(1, 2) != ratio(1, 3));
    assert_eq!(ratio(1, 3).compare(&ratio(1, 2)), Comparison::Less);
    assert_eq!(ratio(1, 2).compare(&ratio(1, 3)), Comparison::Greater);
    assert_eq!(ratio(1, 2).compare(&ratio(2, 4)), Comparison::Equal);
    assert_eq!(ratio(-1, 2).compare(&ratio(1, -3)), Comparison::Less);
}

#[test]
fn orientation_has_the_sign_of_the_cross_product() {
    // the cross products are 3 / 4, - 3 / 4 and 0
    let start = Point::new(ratio(0, 1), ratio(0, 1));
    let end = Point::new(ratio(1, 1), ratio(0, 1));
    assert_eq!(
        orient(&start, &end, &Point::new(ratio(5, 1), ratio(3, 4))),
        Orientation::Counterclockwise
    );
    assert_eq!(
        orient(&start, &end, &Point::new(ratio(5, 1), ratio(3, -4))),
        Orientation::Clockwise
    );
    assert_eq!(
        orient(&start, &end, &Point::new(ratio(5, 1), ratio(0, 7))),
        Orientation::Collinear
    );
}

#[test]
fn integers_are_encoded_in_two_s_complement() {
    assert_eq!(integer_to_bytes(0), vec![0]);
    assert_eq!(integer_to_bytes(127), vec![127]);
    assert_eq!(integer_to_bytes(128), vec![128, 0]);
    assert_eq!(integer_to_bytes(255), vec![255, 0]);
    assert_eq!(integer_to_bytes(256), vec![0, 1]);
    assert_eq!(integer_to_bytes(-1), vec![255]);
    assert_eq!(integer_to_bytes(-128), vec![128]);
    assert_eq!(integer_to_bytes(-129), vec![127, 255]);
    assert_eq!(integer_to_bytes(-256), vec![0, 255]);
    assert_eq!(
        integer_to_bytes(i64::MAX),
        vec![255, 255, 255, 255, 255, 255, 255, 127]
    );
    assert_eq!(integer_to_bytes(i64::MIN), vec![0, 0, 0, 0, 0, 0, 0, 128]);
}

#[test]
fn redundant_bytes_are_trimmed() {
    assert_eq!(trim(vec![1, 0, 0]), vec![1]);
    assert_eq!(trim(vec![128, 0, 0]), vec![128, 0]);
    assert_eq!(trim(vec![128, 255, 255]), vec![128]);
    assert_eq!(trim(vec![127, 255, 255]), vec![127, 255]);
    assert_eq!(trim(vec![0]), vec![0]);
    assert_eq!(trim(Vec::new()), Vec::<u8>::new());
    assert!(is_zero_bytes(&vec![0, 0]));
    assert!(!is_zero_bytes(&vec![0, 1]));
}

#[test]
fn cross_product_is_exact() {
    // (3 - 1) * (7 - 2) - (5 - 1) * (4 - 2) = 10 - 8
    let result = cross_multiply(&whole(1, 1), &whole(3, 5), &whole(2, 2), &whole(4, 7));
    assert!(result == ratio(2, 1));
    let halves = cross_multiply(
        &Point::new(ratio(1, 2), ratio(0, 1)),
        &Point::new(ratio(3, 2), ratio(1, 3)),
        &whole(0, 0),
        &Point::new(ratio(1, 5), ratio(2, 1)),
    );
    // 1 * 2 - (1 / 3) * (1 / 5)
    assert!(halves == ratio(29, 15));
}

#[test]
fn cross_product_of_large_coordinates_is_exact() {
    let large = i64::MAX;
    let result = cross_multiply(&whole(0, 0), &whole(large, 0), &whole(0, 0), &whole(0, large));
    // the square of 2 ** 63 - 1 is 2 ** 126 - 2 ** 64 + 1
    let mut expected = vec![0u8; 16];
    expected[0] = 1;
    for byte in expected.iter_mut().take(15).skip(8) {
        *byte = 255;
    }
    expected[15] = 63;
    assert!(result == Fraction::new(expected, vec![1]).unwrap());
}

#[test]
fn orientation_follows_the_turn() {
    assert_eq!(
        orient(&whole(0, 0), &whole(1, 0), &whole(1, 1)),
        Orientation::Counterclockwise
    );
    assert_eq!(orient(&whole(0, 0), &whole(1, 0), &whole(1, -1)), Orientation::Clockwise);
    assert_eq!(orient(&whole(0, 0), &whole(1, 1), &whole(3, 3)), Orientation::Collinear);
}

#[test]
fn crossing_segments_meet_in_an_exact_point() {
    let point = intersect_crossing_segments(&whole(0, 0), &whole(2, 2), &whole(0, 2), &whole(2, 0));
    assert!(point == whole(1, 1));
    let other = intersect_crossing_segments(&whole(0, 0), &whole(3, 1), &whole(0, 1), &whole(1, 0));
    assert!(other == Point::new(ratio(3, 4), ratio(1, 4)));
    assert!(other.x() == ratio(3, 4));
    assert!(other.y() == ratio(1, 4));
}

#[test]
fn points_are_ordered_lexicographically() {
    assert!(whole(0, 5).less_than(&whole(1, 0)));
    assert!(whole(1, 0).less_than(&whole(1, 1)));
    assert!(!whole(1, 1).less_than(&whole(1, 1)));
    assert!(!whole(2, 0).less_than(&whole(1, 9)));
    let (first, second) = to_sorted_pair(whole(1, 1), whole(0, 3));
    assert!(first == whole(0, 3));
    assert!(second == whole(1, 1));
    let (first, second) = to_sorted_pair(whole(0, 3), whole(1, 1));
    assert!(first == whole(0, 3));
    assert!(second == whole(1, 1));
}

fn edge_values() -> Vec<i64> {
    vec![
        -4294967297,
        -4294967296,
        -2147483649,
        -2147483648,
        -32769,
        -32768,
        -257,
        -256,
        -255,
        -129,
        -128,
        -127,
        -2,
        -1,
        0,
        1,
        2,
        127,
        128,
        129,
        255,
        256,
        257,
        32767,
        32768,
        2147483647,
        2147483648,
        4294967295,
        4294967296,
    ]
}

fn wide(value: i128) -> Fraction {
    Fraction::new(value.to_le_bytes().to_vec(), vec![1]).unwrap()
}

fn wide_ratio(numerator: i128, denominator: i128) -> Fraction {
    Fraction::new(
        numerator.to_le_bytes().to_vec(),
        denominator.to_le_bytes().to_vec(),
    )
    .unwrap()
}

#[test]
fn encoded_integers_are_read_back() {
    for value in edge_values() {
        let bytes = integer_to_bytes(value);
        let mut padded = [if value < 0 { 255u8 } else { 0u8 }; 8];
        padded[..bytes.len()].copy_from_slice(&bytes);
        assert_eq!(i64::from_le_bytes(padded), value);
        assert_eq!(trim(value.to_le_bytes().to_vec()), bytes);
        assert!(ratio(value, 1) == wide(value as i128));
    }
}

#[test]
fn products_and_differences_agree_with_machine_arithmetic() {
    let values = edge_values();
    let origin = whole(0, 0);
    for &first in &values {
        for &second in &values {
            for &third in &[-3i64, 0, 1, 65536] {
                // (first - 0) * (second - 0) - (third - 0) * (7 - 0)
                let result =
                    cross_multiply(&origin, &whole(first, third), &origin, &whole(7, second));
                let expected = first as i128 * second as i128 - third as i128 * 7;
                assert!(result == wide(expected));
            }
        }
    }
}

#[test]
fn values_are_ordered_as_machine_integers_are() {
    let values = edge_values();
    for &first in &values {
        for &second in &values {
            let expected = if first < second {
                Comparison::Less
            } else if first > second {
                Comparison::Greater
            } else {
                Comparison::Equal
            };
            assert_eq!(ratio(first, 1).compare(&ratio(second, 1)), expected);
            assert_eq!(ratio(first, 1) == ratio(second, 1), first == second);
            if second != 0 && first != 0 {
                // first / second against second / first
                let left = first as i128 * first as i128;
                let right = second as i128 * second as i128;
                let sign = if (first < 0) != (second < 0) { -1i128 } else { 1 };
                let expected = if sign * left < sign * right {
                    Comparison::Less
                } else if sign * left > sign * right {
                    Comparison::Greater
                } else {
                    Comparison::Equal
                };
                assert_eq!(ratio(first, second).compare(&ratio(second, first)), expected);
            }
        }
    }
}

#[test]
fn crossings_agree_with_machine_arithmetic() {
    for &width in &[1i64, 2, 3, 127, 128, 255, 256, 65535, 4294967296] {
        for &height in &[-4294967297i64, -256, -1, 1, 5, 128, 32768] {
            for &(numerator, denominator) in &[(1i64, 2i64), (1, 3), (2, 3), (127, 128), (1, 256)] {
                // the line from the origin to (width, height) is met at the
                // abscissa width * numerator / denominator
                let abscissa = ratio(width, 1);
                let at = wide_ratio(
                    width as i128 * numerator as i128,
                    denominator as i128,
                );
                let low = Point::new(at.clone(), ratio(-5000000000, 1));
                let high = Point::new(at.clone(), ratio(5000000000, 1));
                let start = whole(0, 0);
                let end = Point::new(abscissa, ratio(height, 1));
                let point = intersect_crossing_segments(&start, &end, &low, &high);
                assert!(point.x() == at);
                assert!(
                    point.y()
                        == wide_ratio(height as i128 * numerator as i128, denominator as i128)
                );
                let other = intersect_crossing_segments(&low, &high, &start, &end);
                assert!(other == point);
            }
        }
    }
}
