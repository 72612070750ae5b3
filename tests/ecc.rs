use utxo_crypto::arithmetic256::u256;
use utxo_crypto::ecc::{EcPoint, EllCurve};
use utxo_crypto::error::CryptoError;

fn small(v: u128) -> u256 {
    u256::new(&[0, v])
}

fn curve() -> EllCurve {
    // y^2 = x^3 + 2x + 3 over the integers modulo 97
    EllCurve { p: small(97), a: small(2), b: small(3) }
}

fn on_curve(c: &EllCurve, pt: &EcPoint) -> bool {
    let mut lhs = pt.y;
    lhs.mulm(&pt.y, &c.p);
    let mut rhs = pt.x;
    rhs.mulm(&pt.x, &c.p);
    rhs.mulm(&pt.x, &c.p);
    let mut ax = c.a;
    ax.mulm(&pt.x, &c.p);
    rhs.addm(&ax, &c.p);
    rhs.addm(&c.b, &c.p);
    lhs == rhs
}

#[test]
fn chord_sum_lies_on_curve() {
    let c = curve();
    let p1 = EcPoint { x: small(1), y: small(54) };
    let p2 = EcPoint { x: small(11), y: small(17) };
    assert!(on_curve(&c, &p1));
    assert!(on_curve(&c, &p2));
    let s = c.add(&p1, &p2).unwrap();
    assert_eq!(s, EcPoint { x: small(24), y: small(2) });
    assert!(on_curve(&c, &s));
}

#[test]
fn addition_is_symmetric_on_small_curve() {
    let c = curve();
    let p1 = EcPoint { x: small(1), y: small(54) };
    let p2 = EcPoint { x: small(11), y: small(17) };
    assert_eq!(c.add(&p1, &p2), c.add(&p2, &p1));
}

#[test]
fn equal_x_is_degenerate() {
    let c = curve();
    let p1 = EcPoint { x: small(1), y: small(54) };
    let p2 = EcPoint { x: small(1), y: small(43) };
    assert_eq!(c.add(&p1, &p2), Err(CryptoError::DegenerateAddition));
    let p3 = EcPoint { x: small(98), y: small(43) };
    assert_eq!(c.add(&p1, &p3), Err(CryptoError::DegenerateAddition));
}
