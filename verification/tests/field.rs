use jolt_goldilocks::field::Field;
use jolt_goldilocks::goldilocks::Goldilocks;

type F = Goldilocks;

const MODULUS: u64 = 0xFFFF_FFFF_0000_0001;

#[test]
fn goldilocks_arithmetic() {
    let a = F::from_u64(5);
    let b = F::from_u64(7);
    assert_eq!(a.add(b), F::from_u64(12));
    assert_eq!(a.mul(b), F::from_u64(35));
    assert_eq!(a.sub(b), F::from_i128(-2));
    assert_eq!(a.sub(b), F::from_u64(MODULUS - 2));
}

#[test]
fn goldilocks_wraps_at_the_modulus() {
    assert_eq!(F::from_u64(MODULUS), F::from_u64(0));
    assert_eq!(F::from_u64(u64::MAX), F::from_u64(0xFFFF_FFFE));
    let last = F::from_u64(MODULUS - 1);
    assert_eq!(last.add(F::from_u64(1)), F::from_u64(0));
    assert_eq!(last.mul(last), F::from_u64(1));
    // 2^96 is one less than the modulus.
    let limb = F::from_u64(0x1_0000_0000);
    assert_eq!(limb.mul(limb).mul(limb), last);
    assert_eq!(
        F::from_i128(-(MODULUS as i128) - 3),
        F::from_u64(0).sub(F::from_u64(3))
    );
}

#[test]
fn goldilocks_half() {
    let half = F::one_half();
    assert_eq!(half.add(half), F::from_u64(1));
}

#[test]
fn goldilocks_inverses() {
    for v in [1u64, 2, 3, 7, 0x1_0000_0000, MODULUS - 1, 0xDEAD_BEEF_0BAD_F00D] {
        let x = F::from_u64(v);
        assert_eq!(x.mul(x.invert()), F::from_u64(1));
    }
    assert_eq!(F::from_u64(2).invert(), F::one_half());
    assert_eq!(F::from_u64(0).invert(), F::from_u64(0));
}

#[test]
fn goldilocks_one_differs_from_zero() {
    assert_ne!(F::from_u64(1), F::from_u64(0));
    for v in [0u64, 1, 41, MODULUS - 1] {
        let x = F::from_u64(v);
        assert_ne!(x.add(F::from_u64(1)), x);
    }
}
