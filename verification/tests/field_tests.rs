use mlkem::field::{field_reduce, FieldElement};

#[test]
fn field_test_add() {
    let a = FieldElement(2);
    let b = FieldElement(15);
    let c = FieldElement(17);
    assert_eq!(a + b, c);
}

#[test]
fn test_sub() {
    let a = FieldElement(2);
    let b = FieldElement(15);
    let c = FieldElement(3316);
    assert_eq!(a - b, c);
}

#[test]
fn test_mul() {
    let a = FieldElement(17);
    let b = FieldElement(1175);
    let c = FieldElement(1);
    assert_eq!(a * b, c);
}

#[test]
fn test_pow() {
    let a = FieldElement(3);
    let b = a.pow(123);
    assert_eq!(b, FieldElement(838));
}

#[test]
fn test_inv() {
    let a = FieldElement(17);
    let b = a.inv();
    assert_eq!(b, FieldElement(1175));
}

#[test]
fn new_reduces() {
    assert_eq!(FieldElement::new(3329), FieldElement(0));
    assert_eq!(FieldElement::new(3330).to_int(), 1);
    assert_eq!(FieldElement::new(65535).to_int(), 65535 % 3329);
    assert_eq!(FieldElement::new(3328).to_int(), 3328);
}

#[test]
fn operations_stay_reduced_on_all_pairs_of_a_grid() {
    let mut a: u32 = 0;
    while a < 3329 {
        let mut b: u32 = 0;
        while b < 3329 {
            let x = FieldElement(a as u16);
            let y = FieldElement(b as u16);
            assert_eq!((x + y).to_int() as u32, (a + b) % 3329);
            assert_eq!((x - y).to_int() as u32, (a + 3329 - b) % 3329);
            assert_eq!((x * y).to_int() as u32, (a * b) % 3329);
            b += 37;
        }
        a += 1;
    }
}

#[test]
fn multiplication_of_largest_residues() {
    let x = FieldElement(3328);
    assert_eq!((x * x).to_int(), 1);
    assert_eq!((x + x).to_int(), 3327);
    assert_eq!((FieldElement(0) - x).to_int(), 1);
}

#[test]
fn pow_edge_cases() {
    assert_eq!(FieldElement(5).pow(0), FieldElement(1));
    assert_eq!(FieldElement(0).pow(0), FieldElement(1));
    assert_eq!(FieldElement(0).pow(7), FieldElement(0));
    assert_eq!(FieldElement(17).pow(256), FieldElement(1));
    assert_eq!(FieldElement(17).pow(128), FieldElement(3328));
    assert_eq!(FieldElement(128).inv(), FieldElement(3303));
}

#[test]
fn inverse_of_zero_is_zero() {
    assert_eq!(FieldElement(0).inv(), FieldElement(0));
    assert_eq!(FieldElement(1).inv(), FieldElement(1));
    assert_eq!(FieldElement(3328).inv(), FieldElement(3328));
}

#[test]
fn inverse_times_element_is_one() {
    for a in 1..3329u16 {
        let x = FieldElement(a);
        assert_eq!(x * x.inv(), FieldElement(1));
    }
}

#[test]
fn field_reduce_subtracts_at_most_once() {
    assert_eq!(field_reduce(0), 0);
    assert_eq!(field_reduce(3328), 3328);
    assert_eq!(field_reduce(3329), 0);
    assert_eq!(field_reduce(6657), 3328);
    assert_eq!(field_reduce(6658), 3329);
}
