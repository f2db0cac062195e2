use toggl2sheets::double::Double;

/// A sequence of numbers without any pattern to speak of.
struct Numbers(u64);

impl Numbers {
    fn next(&mut self) -> u64 {
        self.0 ^= self.0 << 13;
        self.0 ^= self.0 >> 7;
        self.0 ^= self.0 << 17;
        self.0
    }
}

fn double(x: f64) -> Double {
    Double::from_bits(x.to_bits()).unwrap()
}

fn number(x: Double) -> f64 {
    f64::from_bits(x.to_bits())
}

#[test]
fn bits_round_trip() {
    for x in [0.0f64, -0.0, 1.0, -2.5, 25569.0, f64::MAX, f64::MIN_POSITIVE, 5e-324, 1.0e-310] {
        assert_eq!(double(x).to_bits(), x.to_bits());
        assert_eq!(double(-x).to_bits(), (-x).to_bits());
    }
    assert!(Double::from_bits(f64::INFINITY.to_bits()).is_none());
    assert!(Double::from_bits(f64::NEG_INFINITY.to_bits()).is_none());
    assert!(Double::from_bits(f64::NAN.to_bits()).is_none());
}

#[test]
fn whole_numbers_round_as_the_processor_rounds_them() {
    for n in [0u64, 1, 2, 9_007_199_254_740_991, 9_007_199_254_740_993, 9_007_199_254_740_995, u64::MAX] {
        assert_eq!(Double::from_u64(n).to_bits(), (n as f64).to_bits());
    }
    for n in [0i64, -1, i64::MIN, i64::MAX, -9_007_199_254_740_993, i64::MIN + 1] {
        assert_eq!(Double::from_i64(n).to_bits(), (n as f64).to_bits());
    }
    let mut numbers = Numbers(0x9e37_79b9_7f4a_7c15);
    for _ in 0..2000 {
        let n = numbers.next() >> (numbers.next() % 64);
        assert_eq!(Double::from_u64(n).to_bits(), (n as f64).to_bits());
        assert_eq!(Double::from_i64(n as i64).to_bits(), (n as i64 as f64).to_bits());
    }
}

#[test]
fn quotients_round_as_the_processor_rounds_them() {
    let mut numbers = Numbers(0x2545_f491_4f6c_dd1d);
    for _ in 0..2000 {
        let n = (numbers.next() >> (numbers.next() % 64)) as i64;
        assert_eq!(Double::quotient(n, 60).to_bits(), (n as f64 / 60.0).to_bits());
        assert_eq!(
            Double::quotient(n, 86_400_000).to_bits(),
            (n as f64 / 86_400_000.0).to_bits()
        );
    }
    assert_eq!(number(Double::quotient(90, 60)), 1.5);
    assert_eq!(number(Double::quotient(-1, 60)), -1.0 / 60.0);
    assert_eq!(Double::quotient(0, 60).to_bits(), 0);
}

#[test]
fn whole_products_are_cut_off_as_the_processor_cuts_them_off() {
    let check = |x: f64| {
        assert_eq!(double(x).whole_times(86_400_000), (x * 86_400_000.0) as i64, "{}", x);
    };
    for x in [
        0.0,
        -0.0,
        25569.0,
        45000.123456789,
        -1.5,
        1.0e-300,
        5e-324,
        1.0e11,
        1.1e11,
        -1.1e11,
        106751991167.30064,
        1.0e300,
        -1.0e300,
        f64::MAX,
        f64::MIN,
    ] {
        check(x);
    }
    let mut numbers = Numbers(0xda94_2042_e4dd_58b5);
    for _ in 0..2000 {
        let x = f64::from_bits(numbers.next());
        if x.is_finite() {
            check(x);
        }
        check((numbers.next() % 4_000_000_000_000) as f64 / 86_400_000.0);
        check(-((numbers.next() % 4_000_000_000_000) as f64) / 86_400.0);
    }
}

#[test]
fn doubles_compare_as_the_processor_compares_them() {
    let mut numbers = Numbers(0x6c62_272e_07bb_0142);
    let mut xs = vec![0.0, -0.0, 1.0, -1.0, 5e-324, -5e-324, f64::MAX, f64::MIN, 2.0, 1.5];
    for _ in 0..100 {
        let x = f64::from_bits(numbers.next());
        if x.is_finite() {
            xs.push(x);
        }
    }
    for x in &xs {
        for y in &xs {
            assert_eq!(double(*x).less(double(*y)), x < y, "{} {}", x, y);
        }
    }
}

#[test]
fn zero_is_zero() {
    assert_eq!(Double::zero().to_bits(), 0);
}

#[test]
fn a_quotient_is_undone_but_for_the_last_unit() {
    let mut lost = 0;
    for n in 3_900_000_000_000i64..3_900_000_002_000 {
        let back = Double::quotient(n, 86_400_000).whole_times(86_400_000);
        assert!(back == n || back == n - 1);
        if back == n - 1 {
            lost += 1;
        }
    }
    println!("{} of 2000 lost a unit", lost);
}
