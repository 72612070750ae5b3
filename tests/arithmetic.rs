use utxo_crypto::arithmetic256::u256;
use utxo_crypto::error::CryptoError;

fn small(v: u128) -> u256 {
    u256::new(&[0, v])
}

fn max() -> u256 {
    u256::new(&[u128::MAX, u128::MAX])
}

#[test]
fn new_takes_high_limb_first() {
    let v = u256::new(&[1, 2]);
    assert_eq!(v.limbs(), (2, 1));
    assert_eq!(
        v.to_hex(),
        "0000000000000000000000000000000100000000000000000000000000000002"
    );
}

#[test]
fn add_carries_into_high_limb() {
    let mut a = small(u128::MAX);
    a.add(&small(1));
    assert_eq!(a, u256::new(&[1, 0]));
}

#[test]
fn add_wraps_at_256_bits() {
    let mut a = max();
    a.add(&small(1));
    assert_eq!(a, u256::zero());
}

#[test]
fn add_commutes_and_associates() {
    let a = u256::new(&[0x1234, u128::MAX - 5]);
    let b = u256::new(&[u128::MAX, 77]);
    let c = u256::new(&[9, u128::MAX]);
    let mut ab = a;
    ab.add(&b);
    let mut ba = b;
    ba.add(&a);
    assert_eq!(ab, ba);
    let mut ab_c = ab;
    ab_c.add(&c);
    let mut bc = b;
    bc.add(&c);
    let mut a_bc = a;
    a_bc.add(&bc);
    assert_eq!(ab_c, a_bc);
}

#[test]
fn sub_borrows_and_wraps() {
    let mut a = u256::new(&[1, 0]);
    a.sub(&small(1));
    assert_eq!(a, small(u128::MAX));
    let mut z = u256::zero();
    z.sub(&small(1));
    assert_eq!(z, max());
}

#[test]
fn shl_and_shr_move_bits_across_limbs() {
    let mut a = small(1u128 << 127);
    a.shl();
    assert_eq!(a, u256::new(&[1, 0]));
    a.shr();
    assert_eq!(a, small(1u128 << 127));
    let mut top = u256::new(&[1u128 << 127, 0]);
    top.shl();
    assert_eq!(top, u256::zero());
    let mut one = small(1);
    one.shr();
    assert_eq!(one, u256::zero());
}

#[test]
fn mul_small_and_truncated() {
    let mut a = small(10);
    a.mul(&small(3));
    assert_eq!(a, small(30));
    let mut b = u256::new(&[1, 0]);
    b.mul(&u256::new(&[1, 0]));
    assert_eq!(b, u256::zero());
    let mut c = max();
    c.mul(&max());
    assert_eq!(c, small(1));
    let mut d = small(u128::MAX);
    d.mul(&small(u128::MAX));
    // (2^128 - 1)^2 = 2^256 - 2^129 + 1
    assert_eq!(d, u256::new(&[u128::MAX - 1, 1]));
}

#[test]
fn div_concrete_case() {
    assert_eq!(small(10).div(&small(3)), Ok((small(3), small(1))));
}

#[test]
fn div_by_zero_is_invalid_operand() {
    assert_eq!(small(10).div(&u256::zero()), Err(CryptoError::InvalidOperand));
}

#[test]
fn div_rebuilds_dividend() {
    let a = u256::new(&[0xdead_beef, 0x1234_5678_9abc_def0]);
    let d = u256::new(&[0, 0xffff_ffff_ffff]);
    let (q, r) = a.div(&d).unwrap();
    assert!(r.lt(&d));
    let mut back = q;
    back.mul(&d);
    back.add(&r);
    assert_eq!(back, a);
}

#[test]
fn div_of_largest_value() {
    let (q, r) = max().div(&small(1)).unwrap();
    assert_eq!(q, max());
    assert_eq!(r, u256::zero());
    let (q2, r2) = max().div(&max()).unwrap();
    assert_eq!(q2, small(1));
    assert_eq!(r2, u256::zero());
    let (q3, r3) = small(5).div(&max()).unwrap();
    assert_eq!(q3, u256::zero());
    assert_eq!(r3, small(5));
}

#[test]
fn le_and_lt_order_by_high_limb_first() {
    let a = u256::new(&[1, 0]);
    let b = small(u128::MAX);
    assert!(b.lt(&a));
    assert!(b.le(&a));
    assert!(!a.le(&b));
    assert!(a.le(&a));
    assert!(!a.lt(&a));
}

#[test]
fn residue_reduces_and_rejects_zero() {
    assert_eq!(small(100).residue(&small(7)), Ok(small(2)));
    assert_eq!(small(100).residue(&u256::zero()), Err(CryptoError::InvalidOperand));
}

#[test]
fn copy_overwrites() {
    let mut a = small(4);
    a.copy(&max());
    assert_eq!(a, max());
}

#[test]
fn modular_ops_concrete() {
    let m = small(17);
    let mut a = small(15);
    a.addm(&small(5), &m);
    assert_eq!(a, small(3));
    let mut s = small(3);
    s.subm(&small(5), &m);
    assert_eq!(s, small(15));
    let mut e = small(5);
    e.subm(&small(5), &m);
    assert_eq!(e, u256::zero());
    let mut p = small(5);
    p.mulm(&small(7), &m);
    assert_eq!(p, small(1));
}

#[test]
fn modular_results_lie_below_modulus() {
    let m = u256::new(&[3, 12345]);
    let vals = [u256::zero(), small(1), max(), u256::new(&[7, 9]), u256::new(&[2, u128::MAX])];
    for a in vals.iter() {
        for b in vals.iter() {
            let mut x = *a;
            x.addm(b, &m);
            assert!(x.lt(&m));
            let mut y = *a;
            y.subm(b, &m);
            assert!(y.lt(&m));
            let mut z = *a;
            z.mulm(b, &m);
            assert!(z.lt(&m));
        }
    }
}

#[test]
fn inverse_concrete_case() {
    assert_eq!(small(3).inv(&small(17)), Ok(small(6)));
}

#[test]
fn inverse_of_every_unit_modulo_prime() {
    let p = small(17);
    for x in 1..17u128 {
        let y = small(x).inv(&p).unwrap();
        let mut check = y;
        check.mulm(&small(x), &p);
        assert_eq!(check, small(1));
    }
}

#[test]
fn inverse_modulo_large_prime() {
    let p = small((1u128 << 127) - 1);
    let x = small(0x1234567890abcdef1234567890abcdef);
    assert_eq!(x.inv(&p), Ok(small(0x6237d1861b5975c5f7e86c2444d9f450)));
}

#[test]
fn inverse_errors() {
    assert_eq!(small(6).inv(&small(12)), Err(CryptoError::NonInvertible));
    assert_eq!(u256::zero().inv(&small(17)), Err(CryptoError::NonInvertible));
    assert_eq!(small(3).inv(&u256::zero()), Err(CryptoError::InvalidOperand));
}

#[test]
fn isset_tests_each_bit() {
    let five = small(5);
    assert!(five.isset(0));
    assert!(!five.isset(1));
    assert!(five.isset(2));
    assert!(!five.isset(200));
    let high = u256::new(&[1, 0]);
    assert!(high.isset(128));
    assert!(!high.isset(127));
    assert!(max().isset(255));
    assert!(!small(1).isset(255));
}
