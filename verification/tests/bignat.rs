use naive_bayes::bignat::BigNat;

fn product_of(factors: &[u32]) -> BigNat {
    let mut x = BigNat::from_u32(1);
    for &f in factors {
        x.mul_u32(f);
    }
    x
}

#[test]
fn bignat_compares_beyond_machine_width() {
    // (2^32 - 1)^4 does not fit in 64 bits; the comparison is still exact.
    let big = product_of(&[u32::MAX, u32::MAX, u32::MAX, u32::MAX]);
    let small = product_of(&[u32::MAX, u32::MAX, u32::MAX]);
    assert!(big.gt(&small));
    assert!(!small.gt(&big));
    assert!(!big.gt(&big));
}

#[test]
fn bignat_distinguishes_neighbours() {
    // 7 * 11 * 13 = 1001 against 1000.
    let a = product_of(&[7, 11, 13]);
    let b = product_of(&[8, 125]);
    assert!(a.gt(&b));
    assert!(!b.gt(&a));
}

#[test]
fn bignat_zero_factor_annihilates() {
    let zero = product_of(&[u32::MAX, 0, u32::MAX]);
    let one = BigNat::from_u32(1);
    assert!(one.gt(&zero));
    assert!(!zero.gt(&one));
    assert!(!zero.gt(&zero));
}
