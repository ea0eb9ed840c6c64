use beaumont::linalg::{Dimension, Vector};
use beaumont::num::Decimal;

#[test]
fn vectors_dim() {
    let v = Vector::from(Box::new([1, 2, 3]) as Box<[i32]>);
    assert_eq!(v.dim(), 3);
}

#[test]
fn from_array_of_integers() {
    // From a boxed slice.
    let components: Box<[i32]> = Box::new([1, 2, 3]);
    let v = Vector::from(components);
    let mut walk = v.iter();
    let mut i = 0;
    while let Some(el) = walk.next() {
        assert_eq!(el, (i + 1) as i32);
        i += 1;
    }
    assert_eq!(i, 3);
}

#[test]
fn from_array_of_floats() {
    // From an array of fixed length.
    let arr: [f32; 6] = [1.01, 2.32, 3.675, 4.8976, 5.234567, 6.897654321];
    let v = Vector::from(arr);
    assert_eq!(v.dim(), 6);
    assert_eq!(v[1], 1.01);
    assert_eq!(v[2], 2.32);
    assert_eq!(v[3], 3.675);
    assert_eq!(v[4], 4.8976);
    assert_eq!(v[5], 5.234567);
    assert_eq!(v[6], 6.897654321);
}

#[test]
fn iterator() {
    let v = Vector::from(Box::new([0usize, 1, 2]) as Box<[usize]>);
    let mut walk = v.iter();
    let mut i = 0;
    while let Some(c) = walk.next() {
        assert_eq!(i, c);
        i += 1;
    }
    assert_eq!(i, 3);
    assert_eq!(walk.next(), None);
}

#[test]
fn add_vectors_of_integers() {
    let v1 = Vector::from(Box::new([1, 2, 3]) as Box<[i32]>);
    let v2 = Vector::from(Box::new([4, 5, 6]) as Box<[i32]>);
    let v3 = v1.add(&v2);
    assert_eq!(v3.dim(), 3);
    assert_eq!(v3[1], 5);
    assert_eq!(v3[2], 7);
    assert_eq!(v3[3], 9);
}

#[test]
fn add_vectors_of_float() {
    let v1 = Vector::from(Box::new([1.1, 2.22, 3.333]) as Box<[f64]>);
    let v2 = Vector::from(Box::new([4.4, 5.55, 6.666]) as Box<[f64]>);
    let v3 = v1.add(&v2);
    assert_eq!(v3.dim(), 3);
    assert_eq!(v3[1], 5.5);
    assert_eq!(v3[2], 7.77);
    assert_eq!(v3[3], 9.999);
}

#[test]
fn dot_product_arrays_of_integers() {
    let u = Vector::from(Box::new([1, 2, 3]) as Box<[i32]>);
    let w = Vector::from(Box::new([4, 5, 6]) as Box<[i32]>);
    let r = u.dot(&w);
    assert_eq!(r, 32);
}

#[test]
fn dot_product_vectors_of_floats() {
    let u = Vector::from(Box::new([1.0, 2.0, 3.0]) as Box<[f64]>);
    let w = Vector::from(Box::new([4.0, 5.0, 6.0]) as Box<[f64]>);
    let r = u.dot(&w);
    assert_eq!(r, 32.0);
}

#[test]
fn eq_vectors_of_integers() {
    let v = Vector::from(Box::new([1, 2, 3]) as Box<[i32]>);
    assert_eq!(v, v);
}

#[test]
fn eq_vectors_of_floats() {
    let v = Vector::from(Box::new([1.0, 2.0, 3.0]) as Box<[f64]>);
    assert_eq!(v, v);
}

#[test]
fn idx() {
    let v = Vector::from(Box::new([1, 2, 3, 4, 5, 6]) as Box<[i32]>);
    assert_eq!(v[3], 3);
}

#[test]
fn neg_vector_of_integers() {
    let v = Vector::from(Box::new([1, 2, 3]) as Box<[i32]>);
    let negated = v.neg();
    assert_eq!(negated.dim(), 3);
    assert_eq!(negated[1], -1);
    assert_eq!(negated[2], -2);
    assert_eq!(negated[3], -3);
}

#[test]
fn neg_vector_of_floats() {
    let v = Vector::from(Box::new([1.1, 2.22, 3.333]) as Box<[f64]>);
    let negated = v.neg();
    assert_eq!(negated.dim(), 3);
    assert_eq!(negated[1], -1.1);
    assert_eq!(negated[2], -2.22);
    assert_eq!(negated[3], -3.333);
}

#[test]
fn neg_vector_of_decimals() {
    let v = Vector::from(Box::new([
        "1.1".parse::<Decimal>().unwrap(),
        "2.22".parse::<Decimal>().unwrap(),
        "3.333".parse::<Decimal>().unwrap(),
    ]) as Box<[Decimal]>);
    let negated = v.neg();
    assert_eq!(negated.dim(), 3);
    assert_eq!(negated[1], -"1.1".parse::<Decimal>().unwrap());
    assert_eq!(negated[2], -"2.22".parse::<Decimal>().unwrap());
    assert_eq!(negated[3], -"3.333".parse::<Decimal>().unwrap());
}

#[test]
fn scale_vectors_of_integers() {
    let v = Vector::from(Box::new([1, 2, 3]) as Box<[i32]>);
    let scaled = v.scale_by(2);
    assert_eq!(scaled.dim(), 3);
    assert_eq!(scaled[1], 2);
    assert_eq!(scaled[2], 4);
    assert_eq!(scaled[3], 6);
}

#[test]
fn scale_vectors_of_floats() {
    let v = Vector::from(Box::new([1.1, 2.22, 3.333]) as Box<[f64]>);
    let scaled = v.scale_by(2.0);
    assert_eq!(scaled.dim(), 3);
    assert_eq!(scaled[1], 2.2);
    assert_eq!(scaled[2], 4.44);
    assert_eq!(scaled[3], 6.666);
}

#[test]
fn order_is_dim() {
    let v = Vector::from([7, 8, 9, 10]);
    assert_eq!(v.order(), 4);
    assert_eq!(v.order(), v.dim());
    let none = Vector::from([0i32; 0]);
    assert_eq!(none.dim(), 0);
}

#[test]
fn products_place_by_place() {
    let u = Vector::from([1, 2, 3]);
    let w = Vector::from([4, 5, 6]);
    assert_eq!(u.products(&w), vec![4, 10, 18]);
    let short = Vector::from([2]);
    assert_eq!(u.products(&short), vec![2]);
    assert_eq!(short.products(&u), vec![2]);
}

#[test]
fn dot_of_nothing_is_zero() {
    let none = Vector::from([0i32; 0]);
    assert_eq!(none.dot(&none), 0);
    let v = Vector::from([1, 2]);
    assert_eq!(v.dot(&none), 0);
    assert_eq!(v.dot(&Vector::from([3, 4, 5])), 11);
}

#[test]
fn eq_compares_place_by_place() {
    assert_eq!(Vector::from([1, 2, 3]), Vector::from([1, 2, 3]));
    assert_ne!(Vector::from([1, 2, 3]), Vector::from([1, 2, 4]));
    assert_ne!(Vector::from([0, 2, 3]), Vector::from([1, 2, 3]));
    // What the longer vector has beyond the shorter one is not looked at.
    assert_eq!(Vector::from([1, 2, 3]), Vector::from(vec![1, 2].into_boxed_slice()));
}

#[test]
fn operations_leave_the_vector_as_it_was() {
    let v = Vector::from([1, -2, 3]);
    let _ = v.neg();
    let _ = v.scale_by(10);
    let _ = v.add(&v);
    assert_eq!(v, Vector::from([1, -2, 3]));
    assert_eq!(v.neg().neg(), v);
    assert_eq!(v.add(&v), v.scale_by(2));
}

#[test]
fn dot_adds_up_from_first_to_last() {
    // In this order the one is lost in the first sum; in another it would stay.
    let u = Vector::from([1.0e16, 1.0, -1.0e16]);
    let ones = Vector::from([1.0, 1.0, 1.0]);
    assert_eq!(u.dot(&ones), 0.0);
    let w = Vector::from([1.0e16, -1.0e16, 1.0]);
    assert_eq!(w.dot(&ones), 1.0);
    // A single product is the dot product.
    assert_eq!(Vector::from([-7]).dot(&Vector::from([6, 100])), -42);
    // The total may pass through values that the result does not show.
    let big = Vector::from([i32::MAX, -1, -1]);
    assert_eq!(big.dot(&Vector::from([1, 1, 1])), i32::MAX - 2);
}
