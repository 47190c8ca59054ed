use gravity::binary32::Binary32;

fn lib(value: f32) -> Binary32 {
    Binary32::from_bits(value.to_bits())
}

fn agree(label: &str, a: f32, b: f32, got: Binary32, want: f32) {
    if want.is_nan() {
        assert!(got.is_nan(), "{label} of {a:e} and {b:e}");
    } else {
        assert_eq!(got.to_bits(), want.to_bits(), "{label} of {a:e} and {b:e}");
    }
}

fn check_pair(a: f32, b: f32) {
    let (x, y) = (lib(a), lib(b));
    assert_eq!((x + y).to_bits(), (y + x).to_bits());
    assert_eq!((x * y).to_bits(), (y * x).to_bits());
    assert_eq!((x - y).magnitude(), (y - x).magnitude());
    agree("sum", a, b, x + y, a + b);
    agree("difference", a, b, x - y, a - b);
    agree("product", a, b, x * y, a * b);
    agree("quotient", a, b, x / y, a / b);
    agree("remainder", a, b, x % y, a % b);
    agree("root", a, b, x.sqrt(), a.sqrt());
    agree("opposite", a, b, x.negated(), -a);
    assert_eq!(x.less(y), a < b);
    assert_eq!(x.at_most(y), a <= b);
    assert_eq!(x.same(y), a == b);
    assert_eq!(x == y, a == b);
    assert_eq!(x.round_to_usize(), a.round() as usize);
}

struct Generator(u64);

impl Generator {
    fn next(&mut self) -> u64 {
        self.0 ^= self.0 << 13;
        self.0 ^= self.0 >> 7;
        self.0 ^= self.0 << 17;
        self.0
    }
}

#[test]
fn special_numbers_agree_with_the_hardware() {
    let specials = [
        0u32, 1, 2, 3, 0x7F_FFFF, 0x80_0000, 0x80_0001, 0xFF_FFFF, 0x100_0000, 0x3F80_0000,
        0x3F80_0001, 0x3F7F_FFFF, 0x4000_0000, 0x3F00_0000, 0x3EFF_FFFF, 0x3F00_0001, 0x4B00_0000,
        0x4B80_0000, 0x5F00_0000, 0x5F80_0000, 0x5F7F_FFFF, 0x7F00_0000, 0x7F7F_FFFF, 0x7F7F_FFFE, 0x7F80_0000,
        0x7F80_0001, 0x7FC0_0000, 0x3EE6_6666, 0x3DCC_CCCD, 0x2000_0000, 0x1FFF_FFFF,
    ];
    for &a in &specials {
        for &b in &specials {
            for sign in 0..4u32 {
                let a = a | (sign & 1) << 31;
                let b = b | (sign >> 1) << 31;
                check_pair(f32::from_bits(a), f32::from_bits(b));
            }
        }
    }
}

#[test]
fn random_numbers_agree_with_the_hardware() {
    let mut generator = Generator(0x9E37_79B9_7F4A_7C15);
    for _ in 0..200_000 {
        let word = generator.next();
        check_pair(f32::from_bits(word as u32), f32::from_bits((word >> 32) as u32));
    }
}

#[test]
fn nearby_numbers_agree_with_the_hardware() {
    let mut generator = Generator(0x2545_F491_4F6C_DD1D);
    for _ in 0..200_000 {
        let word = generator.next();
        let a = word as u32;
        let exponent = ((a >> 23 & 0xFF) as i32 + (word >> 58) as i32 - 32).clamp(0, 254) as u32;
        let b = ((word >> 32) as u32 & 0x807F_FFFF) | exponent << 23;
        check_pair(f32::from_bits(a), f32::from_bits(b));
    }
}

#[test]
fn counts_agree_with_the_hardware() {
    let mut generator = Generator(0x1234_5678_9ABC_DEF1);
    for shift in 0..64 {
        for _ in 0..500 {
            let count = (generator.next() >> shift) as usize;
            assert_eq!(Binary32::from_usize(count).to_bits(), (count as f32).to_bits());
        }
    }
    assert_eq!(Binary32::from_usize(usize::MAX).to_bits(), (usize::MAX as f32).to_bits());
}

#[test]
fn operations_without_a_numeric_result_give_one_quiet_value() {
    let (zero, infinity) = (lib(0.0), lib(f32::INFINITY));
    let quiet = 0x7FC0_0000;
    assert_eq!((infinity - infinity).to_bits(), quiet);
    assert_eq!((zero * infinity).to_bits(), quiet);
    assert_eq!((zero / zero).to_bits(), quiet);
    assert_eq!((infinity % lib(2.0)).to_bits(), quiet);
    assert_eq!((lib(2.0) % zero).to_bits(), quiet);
    assert_eq!(lib(-1.0).sqrt().to_bits(), quiet);
    assert!(lib(f32::NAN) != lib(f32::NAN));
    assert!(lib(0.0) == lib(-0.0));
}

#[test]
fn doubling_and_halving_change_the_exponent_alone() {
    for value in [1.0_f32, 1.7, -3.25, 1.0e-30, 6.5e30] {
        let number = lib(value);
        assert_eq!((number * lib(2.0)).to_bits(), number.to_bits() + 0x80_0000);
        assert_eq!((number * lib(0.5)).to_bits(), number.to_bits() - 0x80_0000);
    }
}

#[test]
fn limits_choose_between_numbers() {
    assert_eq!(lib(2.0).min(lib(3.0)), lib(2.0));
    assert_eq!(lib(2.0).max(lib(3.0)), lib(3.0));
    assert_eq!(lib(f32::NAN).min(lib(3.0)), lib(3.0));
    assert_eq!(lib(2.0).max(lib(f32::NAN)), lib(2.0));
    assert_eq!(lib(7.0).clamp(lib(0.0), lib(1.0)), lib(1.0));
    assert_eq!(lib(-7.0).clamp(lib(0.0), lib(1.0)), lib(0.0));
    assert_eq!(lib(0.25).clamp(lib(0.0), lib(1.0)), lib(0.25));
    assert!(lib(f32::NAN).clamp(lib(0.0), lib(1.0)).is_nan());
    assert_eq!(lib(-0.0).clamp(lib(0.0), lib(1.0)).to_bits(), (-0.0_f32).to_bits());
}
