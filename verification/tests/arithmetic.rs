use ergodic_transport::double::Double;

fn double(x: f64) -> Double {
    Double::from_bits(x.to_bits())
}

/// The same number, where every not-a-number counts as the same.
fn same(a: Double, b: f64) -> bool {
    let a = f64::from_bits(a.to_bits());
    (a.is_nan() && b.is_nan()) || a.to_bits() == b.to_bits()
}

/// Numbers of every kind: the corners of the format, and many in between.
fn samples() -> Vec<f64> {
    let mut all = vec![
        0.0,
        -0.0,
        1.0,
        -1.0,
        0.5,
        1.5,
        2.5,
        3.0,
        0.1,
        0.3,
        1e-12,
        1e300,
        -1e300,
        1e-300,
        f64::MAX,
        f64::MIN,
        f64::MIN_POSITIVE,
        f64::INFINITY,
        f64::NEG_INFINITY,
        f64::NAN,
        f64::EPSILON,
        f64::from_bits(1),
        f64::from_bits(2),
        f64::from_bits(3),
        f64::from_bits(0x000F_FFFF_FFFF_FFFF),
        f64::from_bits(0x0010_0000_0000_0001),
        f64::from_bits(0x001F_FFFF_FFFF_FFFF),
        9007199254740992.0,
        9007199254740993.0,
        4503599627370497.5,
    ];
    let mut state: u64 = 0x1234_5678_9ABC_DEF1;
    for i in 0..170 {
        state ^= state << 13;
        state ^= state >> 7;
        state ^= state << 17;
        let bits = match i % 4 {
            0 => state,
            1 => (state & 0x800F_FFFF_FFFF_FFFF) | 0x3FE0_0000_0000_0000,
            2 => (state & 0x803F_FFFF_FFFF_FFFF) | 0x3FC0_0000_0000_0000,
            _ => state & 0x801F_FFFF_FFFF_FFFF,
        };
        all.push(f64::from_bits(bits));
    }
    all
}

#[test]
fn binary_operations_agree_with_the_machine() {
    for &x in &samples() {
        for &y in &samples() {
            let (a, b) = (double(x), double(y));
            assert!(same(a.plus(b), x + y), "{:?} + {:?}", x, y);
            assert!(same(a.minus(b), x - y), "{:?} - {:?}", x, y);
            assert!(same(a.times(b), x * y), "{:?} * {:?}", x, y);
            assert!(same(a.over(b), x / y), "{:?} / {:?}", x, y);
            assert_eq!(a.less(b), x < y);
            assert_eq!(a.at_most(b), x <= y);
            assert_eq!(a.equals(b), x == y);
        }
    }
}

#[test]
fn unary_operations_agree_with_the_machine() {
    for &x in &samples() {
        let a = double(x);
        assert!(same(a.negated(), -x));
        assert!(same(a.abs(), x.abs()));
        assert!(same(a.sqrt(), x.sqrt()), "sqrt {:?}", x);
        assert!(same(a.ceil(), x.ceil()), "ceil {:?}", x);
    }
}

#[test]
fn naturals_agree_with_the_machine() {
    for &n in &[0_u64, 1, 2, 3, 63, 1000, 1 << 52, 1 << 53, (1 << 53) + 1, (1 << 53) + 3, u64::MAX] {
        assert!(same(Double::from_natural(n), n as f64), "{}", n);
    }
}

#[test]
fn sums_agree_with_the_machine() {
    let all: Vec<f64> = vec![0.1, -0.1, 1e16, 1.0, -1e16, 3.5, -0.0];
    for n in 0..all.len() + 1 {
        let terms: Vec<Double> = all[..n].iter().map(|&x| double(x)).collect();
        let expected: f64 = all[..n].iter().sum();
        assert!(same(ergodic_transport::vector::sum(&terms), expected));
    }
}
