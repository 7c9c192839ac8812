use max_order::ModularRing;
use max_order::RingError;

fn mulm(x: u64, y: u64, m: u64) -> u64 {
    ((x as u128 * y as u128) % m as u128) as u64
}

fn powm(a: u64, mut e: u64, m: u64) -> u64 {
    let mut base = a % m;
    let mut r = 1 % m;
    while e > 0 {
        if e % 2 == 1 {
            r = mulm(r, base, m);
        }
        base = mulm(base, base, m);
        e /= 2;
    }
    r
}

fn gcd(mut a: u64, mut b: u64) -> u64 {
    while b != 0 {
        let t = a % b;
        a = b;
        b = t;
    }
    a
}

fn lcm(a: u64, b: u64) -> u64 {
    a / gcd(a, b) * b
}

fn order_of(a: u64, m: u64) -> Option<u64> {
    if gcd(a % m, m) != 1 {
        return None;
    }
    let mut x = a % m;
    let mut e: u64 = 1;
    while x != 1 % m {
        x = mulm(x, a % m, m);
        e += 1;
        assert!(e <= m, "order computation ran away");
    }
    Some(e)
}

#[test]
fn exponent_is_least_universal_and_test_is_exact() {
    // Brute force over every modulus up to 200: every unit satisfies
    // a^exponent == 1, the lcm of all true orders equals the exponent (so no
    // smaller value works for all units), and has_max_order answers exactly
    // whether the true order equals the exponent.
    for m in 2..=200u64 {
        let ring = ModularRing::new(m).unwrap();
        let lambda = ring.exponent;
        let mut orders_lcm: u64 = 1;
        for a in 0..2 * m {
            match order_of(a, m) {
                Some(ord) => {
                    assert_eq!(powm(a, lambda, m), 1 % m, "a^lambda != 1 for a={a}, m={m}");
                    assert_eq!(lambda % ord, 0, "order does not divide lambda");
                    if a < m {
                        orders_lcm = lcm(orders_lcm, ord);
                    }
                    assert_eq!(
                        ring.has_max_order(a),
                        ord == lambda,
                        "maximal-order test wrong for a={a}, m={m}"
                    );
                }
                None => {
                    assert!(!ring.has_max_order(a), "non-unit accepted: a={a}, m={m}");
                }
            }
        }
        assert_eq!(orders_lcm, lambda, "exponent not minimal for m={m}");
    }
}

#[test]
fn non_units_are_rejected() {
    let ring = ModularRing::new(12).unwrap();
    for a in [0u64, 2, 3, 4, 6, 8, 9, 10, 12, 24, 27] {
        assert_ne!(gcd(a % 12, 12), 1);
        assert!(!ring.has_max_order(a));
    }
    let ring16 = ModularRing::new(16).unwrap();
    assert!(!ring16.has_max_order(0));
    assert!(!ring16.has_max_order(4));
    assert!(!ring16.has_max_order(16));
}

#[test]
fn moduli_below_two_are_rejected() {
    assert!(matches!(ModularRing::new(0), Err(RingError::InvalidModulus)));
    assert!(matches!(ModularRing::new(1), Err(RingError::InvalidModulus)));
}

#[test]
fn smallest_modulus() {
    // Mod 2 the unit group is trivial: exponent 1, and every odd integer
    // has (vacuously) maximal order.
    let ring = ModularRing::new(2).unwrap();
    assert_eq!(ring.exponent, 1);
    assert!(ring.has_max_order(1));
    assert!(ring.has_max_order(3));
    assert!(!ring.has_max_order(0));
}

#[test]
fn candidates_above_the_modulus_reduce() {
    let ring = ModularRing::new(7).unwrap();
    // 10 == 3 (mod 7), a generator.
    assert!(ring.has_max_order(10));
    // 8 == 1 (mod 7).
    assert!(!ring.has_max_order(8));
}

#[test]
fn composite_exponents_combine_by_lcm() {
    // 112 = 2^4 * 7: lambda = lcm(2^(4-2), 7-1) = lcm(4, 6) = 12.
    assert_eq!(ModularRing::new(112).unwrap().exponent, 12);
    // 8 = 2^3: the special two-power case, 2^(3-2) = 2.
    assert_eq!(ModularRing::new(8).unwrap().exponent, 2);
    // 9 = 3^2: the totient 3 * 2 = 6.
    assert_eq!(ModularRing::new(9).unwrap().exponent, 6);
    // 15 = 3 * 5: lcm(2, 4) = 4.
    assert_eq!(ModularRing::new(15).unwrap().exponent, 4);
    // 4 = 2^2 stays at the totient 2.
    assert_eq!(ModularRing::new(4).unwrap().exponent, 2);
}

#[test]
fn search_counts_every_candidate() {
    // Mod 7 from anchor 1 upward the sequence is 1, 2, 0, 3: the orders are
    // 1, 3, none (non-unit), 6, so the search reports (3, 4).
    let ring = ModularRing::new(7).unwrap();
    assert_eq!(ring.max_order_element_close_to(1, 1), Some((3, 4)));
}

#[test]
fn search_moves_downward_first() {
    // 5 is already a generator mod 7.
    let ring = ModularRing::new(7).unwrap();
    assert_eq!(ring.max_order_element_close_to(5, -1), Some((5, 1)));
    // From 2 downward: 2 (order 3), 1 (order 1), 3 (order 6).
    assert_eq!(ring.max_order_element_close_to(2, -1), Some((3, 3)));
}

#[test]
fn search_passes_negative_candidates_by() {
    // From 0 downward mod 7: 0, -1, 1, -2, 2, -3, 3 - negative candidates
    // and non-units count as attempts but are never returned.
    let ring = ModularRing::new(7).unwrap();
    assert_eq!(ring.max_order_element_close_to(0, -1), Some((3, 7)));
}

#[test]
fn large_modulus_round_trip() {
    // A prime near 2^32 exercises the double-width modular arithmetic.
    let m: u64 = 4_294_967_291;
    let ring = ModularRing::new(m).unwrap();
    assert_eq!(ring.exponent, m - 1);
    let (found, count) = ring.max_order_element_close_to(2_654_435_769, 1).unwrap();
    assert!(count >= 1);
    assert!(ring.has_max_order(found));
    // The found element is a generator: a^((m-1)/d) != 1 for the divisors
    // 2, 5, 19, 22605091 of m - 1.
    for p in [2u64, 5, 19, 22_605_091] {
        assert_eq!((m - 1) % p, 0);
        assert_ne!(powm(found, (m - 1) / p, m), 1);
    }
}
