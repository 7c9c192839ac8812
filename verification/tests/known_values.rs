use max_order::ModularRing;

/// Multiplication mod m, safe for m up to 2^32 on test inputs.
fn mulm(x: u64, y: u64, m: u64) -> u64 {
    ((x as u128 * y as u128) % m as u128) as u64
}

fn gcd(mut a: u64, mut b: u64) -> u64 {
    while b != 0 {
        let t = a % b;
        a = b;
        b = t;
    }
    a
}

/// The multiplicative order of a mod m by repeated multiplication, or None
/// when a is not a unit.
fn order_of(a: u64, m: u64) -> Option<u64> {
    if gcd(a % m, m) != 1 {
        return None;
    }
    let mut x = a % m;
    let mut e: u64 = 1;
    while x != 1 % m {
        x = mulm(x, a % m, m);
        e += 1;
        assert!(e <= m, "order computation ran away");
    }
    Some(e)
}

#[test]
fn prime_modulus_seven() {
    let ring = ModularRing::new(7).unwrap();
    assert_eq!(ring.exponent, 6);
    assert!(ring.has_max_order(3));
    assert_eq!(order_of(3, 7), Some(6));
    assert!(!ring.has_max_order(1));
    assert_eq!(order_of(1, 7), Some(1));
    assert!(!ring.has_max_order(2));
    assert_eq!(order_of(2, 7), Some(3));
}

#[test]
fn exponent_factors_of_seven() {
    // The exponent 6 factors as 2 * 3, in increasing prime order.
    let ring = ModularRing::new(7).unwrap();
    assert_eq!(ring.exp_factors, vec![(2u64, 1u32), (3u64, 1u32)]);
}

#[test]
fn two_power_modulus_sixteen() {
    // The unit group mod 16 is Z/2 x Z/4: the exponent is 4, not phi(16) = 8.
    let ring = ModularRing::new(16).unwrap();
    assert_eq!(ring.exponent, 4);
    assert!(ring.has_max_order(3));
    assert_eq!(order_of(3, 16), Some(4));
    assert!(!ring.has_max_order(15));
    assert_eq!(order_of(15, 16), Some(2));
}

#[test]
fn end_to_end_modulus_101() {
    // m = 101 is prime, so the exponent is 100; the anchor 101/phi rounds
    // to 62 and undershoots, so the search runs 62, 63, 61, 64, 60, ...
    let ring = ModularRing::new(101).unwrap();
    assert_eq!(ring.exponent, 100);

    // The first element of that sequence with order exactly 100.
    let mut candidates: Vec<u64> = vec![62];
    let mut step: i64 = 1;
    let mut c: i64 = 62;
    while candidates.len() < 40 {
        c += step;
        step = -step - step.signum();
        candidates.push(c as u64);
    }
    let pos = candidates
        .iter()
        .position(|&a| order_of(a, 101) == Some(100))
        .expect("some candidate has maximal order");

    let (found, count) = ring.max_order_element_close_to(62, 1).unwrap();
    assert_eq!(found, candidates[pos]);
    assert_eq!(count, pos + 1);
    assert_eq!(order_of(found, 101), Some(100));
    assert!(ring.has_max_order(found));
}
