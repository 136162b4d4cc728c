use tiny_script::number::Number;
use tiny_script::interpreter::run;
use tiny_script::interpreter::value::Value;
use tiny_script::parser::parse;

fn samples() -> Vec<f64> {
    let mut values = vec![
        0.0,
        -0.0,
        f64::MIN_POSITIVE,
        f64::MIN_POSITIVE / 2.0,
        5e-324,
        0.25,
        0.5,
        0.9999999999999999,
        1.0,
        1.0000000000000002,
        1.5,
        1.9999999999999998,
        2.0,
        2.5,
        3.0,
        255.99,
        4503599627370495.5,
        4503599627370496.0,
        4503599627370497.0,
        9007199254740991.0,
        9007199254740992.0,
        9007199254740994.0,
        4294967295.0,
        4294967296.0,
        9223372036854775808.0,
        18446744073709549568.0,
        18446744073709551616.0,
        36893488147419103232.0,
        1e300,
        f64::MAX,
        f64::INFINITY,
        f64::NAN,
        f64::from_bits(0x7ff0_0000_0000_0001),
        f64::from_bits(0x7fff_ffff_ffff_ffff),
    ];
    let negatives: Vec<f64> = values.iter().map(|value| -value).collect();
    values.extend(negatives);
    for shift in 0..64 {
        values.push((1u64 << shift) as f64);
        values.push(((1u64 << shift) as f64) + 0.75);
        values.push((3u64 << shift >> 1) as f64);
    }
    values
}

fn place(value: f64) -> Option<u64> {
    if value.is_nan() || value <= -1.0 || value >= 18446744073709551616.0 {
        None
    } else {
        Some(value.trunc().abs() as u64)
    }
}

#[test]
fn position_is_the_integer_part_of_the_host() {
    for value in samples() {
        let number = Number { bits: value.to_bits() };
        assert_eq!(number.position(), place(value), "position of {:?}", value);
    }
}

#[test]
fn position_examples() {
    let position = |value: f64| Number { bits: value.to_bits() }.position();
    assert_eq!(position(0.0), Some(0));
    assert_eq!(position(-0.0), Some(0));
    assert_eq!(position(0.99), Some(0));
    assert_eq!(position(-0.99), Some(0));
    assert_eq!(position(-5e-324), Some(0));
    assert_eq!(position(1.0), Some(1));
    assert_eq!(position(7.9), Some(7));
    assert_eq!(position(-1.0), None);
    assert_eq!(position(-7.9), None);
    assert_eq!(position(9007199254740993.0), Some(9007199254740992));
    assert_eq!(position(18446744073709549568.0), Some(18446744073709549568));
    assert_eq!(position(18446744073709551616.0), None);
    assert_eq!(position(1e300), None);
    assert_eq!(position(f64::INFINITY), None);
    assert_eq!(position(f64::NEG_INFINITY), None);
    assert_eq!(position(f64::NAN), None);
    assert_eq!(position(-f64::NAN), None);
}

#[test]
fn equality_is_that_of_the_host() {
    let values = samples();
    for lhs in &values {
        for rhs in &values {
            let a = Number { bits: lhs.to_bits() };
            let b = Number { bits: rhs.to_bits() };
            assert_eq!(a.equals(b), lhs == rhs, "{:?} == {:?}", lhs, rhs);
        }
    }
}

#[test]
fn equality_examples() {
    let zero = Number { bits: 0f64.to_bits() };
    let minus_zero = Number { bits: (-0f64).to_bits() };
    let one = Number { bits: 1f64.to_bits() };
    let nan = Number { bits: f64::NAN.to_bits() };
    let infinity = Number { bits: f64::INFINITY.to_bits() };
    assert!(zero.equals(minus_zero));
    assert!(minus_zero.equals(zero));
    assert!(one.equals(one));
    assert!(!one.equals(zero));
    assert!(!nan.equals(nan));
    assert!(!nan.equals(one));
    assert!(infinity.equals(infinity));
    assert!(!infinity.equals(Number { bits: f64::NEG_INFINITY.to_bits() }));
}

fn number(expression: &str) -> f64 {
    let program = parse(&format!("a = {}", expression)).unwrap();
    let state = run(&program).unwrap();
    match state.get("a").unwrap() {
        Value::Number(number) => f64::from_bits(number.bits),
        other => panic!("not a number: {:?}", other),
    }
}

fn same(computed: f64, expected: f64) -> bool {
    computed.to_bits() == expected.to_bits() || (computed.is_nan() && expected.is_nan())
}

#[test]
fn operations_are_those_of_the_host() {
    let integers: [u64; 14] = [
        0,
        1,
        2,
        3,
        7,
        10,
        255,
        1000003,
        4294967297,
        9007199254740991,
        9007199254740993,
        18446744073709551615,
        123456789012345678,
        999999999999999999,
    ];
    for a in integers {
        for b in integers {
            let x = a as f64;
            let y = b as f64;
            assert!(same(number(&format!("{} + {}", a, b)), x + y), "{} + {}", a, b);
            assert!(same(number(&format!("{} - {}", a, b)), x - y), "{} - {}", a, b);
            assert!(same(number(&format!("{} * {}", a, b)), x * y), "{} * {}", a, b);
            assert!(same(number(&format!("{} / {}", a, b)), x / y), "{} / {}", a, b);
        }
    }
}

#[test]
fn operations_on_results_are_those_of_the_host() {
    for a in 1..12u32 {
        for b in 1..12u32 {
            let x = f64::from(a);
            let y = f64::from(b);
            let code = format!("p = {} / {}\nq = {} / {}\na = p + q\nb = p - q\nc = p * q\nd = p / q\ne = p + q * p - q", a, b, b, a + 1);
            let program = parse(&code).unwrap();
            let state = run(&program).unwrap();
            let read = |name: &str| match state.get(name).unwrap() {
                Value::Number(number) => f64::from_bits(number.bits),
                other => panic!("not a number: {:?}", other),
            };
            let p = x / y;
            let q = y / f64::from(a + 1);
            assert!(same(read("a"), p + q));
            assert!(same(read("b"), p - q));
            assert!(same(read("c"), p * q));
            assert!(same(read("d"), p / q));
            assert!(same(read("e"), (p + q) * (p - q)));
        }
    }
}

#[test]
fn small_numbers_are_those_of_the_host() {
    let code = "x = 1\ni = 0\nwhile i != 1080\n    x = x / 2\n    i = i + 1\ny = x * 2\nz = x + x";
    let program = parse(code).unwrap();
    let state = run(&program).unwrap();
    let read = |name: &str| match state.get(name).unwrap() {
        Value::Number(number) => f64::from_bits(number.bits),
        other => panic!("not a number: {:?}", other),
    };
    let mut x = 1f64;
    for _ in 0..1080 {
        x = x / 2.0;
    }
    assert_eq!(read("x").to_bits(), x.to_bits());
    assert_eq!(read("x"), 0.0);
    let code = "x = 1\ni = 0\nwhile i != 1070\n    x = x / 2\n    i = i + 1\ny = x * 3\nz = y / 4\nw = z + x";
    let program = parse(code).unwrap();
    let state = run(&program).unwrap();
    let read = |name: &str| match state.get(name).unwrap() {
        Value::Number(number) => f64::from_bits(number.bits),
        other => panic!("not a number: {:?}", other),
    };
    let mut x = 1f64;
    for _ in 0..1070 {
        x = x / 2.0;
    }
    assert!(x > 0.0);
    assert_eq!(read("x").to_bits(), x.to_bits());
    assert_eq!(read("y").to_bits(), (x * 3.0).to_bits());
    assert_eq!(read("z").to_bits(), (x * 3.0 / 4.0).to_bits());
    assert_eq!(read("w").to_bits(), (x * 3.0 / 4.0 + x).to_bits());
}

#[test]
fn counts_are_those_of_the_host() {
    for length in [0usize, 1, 2, 9, 10, 255, 256, 1000] {
        let mut text = String::new();
        for _ in 0..length {
            text.push('x');
        }
        assert_eq!(number(&format!("\"{}\".length", text)).to_bits(), (length as f64).to_bits());
    }
}

fn integers() -> Vec<u64> {
    let mut values: Vec<u64> = vec![0, 1, 2, 3, 10, 255, 256, 1000003];
    for shift in 0..64 {
        let power = 1u64 << shift;
        for delta in [0u64, 1, 2, 3] {
            values.push(power.wrapping_add(delta));
            values.push(power.wrapping_sub(delta));
            values.push(power.wrapping_add(power >> 1).wrapping_add(delta));
            values.push(power.wrapping_add(power >> 1).wrapping_sub(delta));
        }
    }
    for low in 0..4096u64 {
        values.push((1u64 << 53) + low);
        values.push((1u64 << 54) + low);
        values.push((1u64 << 63) + low);
        values.push(u64::MAX - low);
        values.push((0x1f_ffff_ffff_ffffu64 << 11).wrapping_add(low));
        values.push((0x1f_ffff_ffff_fffeu64 << 10).wrapping_add(low));
    }
    let mut state = 0x9e37_79b9_7f4a_7c15u64;
    for _ in 0..20000 {
        state ^= state << 13;
        state ^= state >> 7;
        state ^= state << 17;
        values.push(state);
        values.push(state >> (state % 64));
    }
    values
}

#[test]
fn nearest_to_a_natural_number_is_that_of_the_host() {
    for value in integers() {
        assert_eq!(
            Number::from_natural(value).bits,
            (value as f64).to_bits(),
            "nearest to {}",
            value
        );
    }
}

#[test]
fn nearest_to_an_integer_is_that_of_the_host() {
    for value in integers() {
        let signed = value as i64;
        assert_eq!(
            Number::from_integer(signed).bits,
            (signed as f64).to_bits(),
            "nearest to {}",
            signed
        );
    }
    assert_eq!(Number::from_integer(i64::MIN).bits, (i64::MIN as f64).to_bits());
    assert_eq!(Number::from_integer(i64::MAX).bits, (i64::MAX as f64).to_bits());
    assert_eq!(Number::from_integer(-1).bits, (-1f64).to_bits());
    assert_eq!(Number::from_integer(0).bits, 0);
}

#[test]
fn nearest_examples() {
    assert_eq!(Number::from_natural(1).bits, 0x3ff0_0000_0000_0000);
    assert_eq!(Number::from_natural(2).bits, 0x4000_0000_0000_0000);
    assert_eq!(Number::from_natural(3).bits, 0x4008_0000_0000_0000);
    assert_eq!(Number::from_natural(9007199254740993).bits, 9007199254740992f64.to_bits());
    assert_eq!(Number::from_natural(9007199254740995).bits, 9007199254740996f64.to_bits());
    assert_eq!(Number::from_natural(u64::MAX).bits, 18446744073709551616f64.to_bits());
}

#[test]
fn decimal_integers_are_read_as_the_host_reads_them() {
    let mut cases: Vec<String> = Vec::new();
    for value in integers() {
        cases.push(value.to_string());
    }
    let mut state = 0x2545_f491_4f6c_dd1du64;
    for length in 1..400usize {
        let mut digits = String::new();
        for _ in 0..length {
            state ^= state << 13;
            state ^= state >> 7;
            state ^= state << 17;
            digits.push(char::from(b'0' + (state % 10) as u8));
        }
        cases.push(digits);
    }
    for exponent in 0..330usize {
        for leading in ["1", "9", "17976931348623157", "17976931348623158", "4", "5", "25"] {
            let mut digits = String::from(leading);
            for _ in 0..exponent {
                digits.push('0');
            }
            cases.push(digits.clone());
            digits.push('1');
            cases.push(digits);
        }
    }
    for shift in [53u32, 54, 60, 64, 70, 96, 100, 127] {
        let power = 1u128 << shift;
        let half = power >> 53;
        for value in [
            power,
            power + half,
            power + half - 1,
            power + half + 1,
            power + 2 * half,
            power + 3 * half,
            power + 3 * half - 1,
            power + 3 * half + 1,
            power - 1,
        ] {
            cases.push(value.to_string());
        }
    }
    cases.push(String::from("000000000000000000000000000000000000000000"));
    cases.push(String::from("000000000000000000000000000000000000000001"));
    cases.push(format!("{}{}", "0".repeat(500), "123"));
    cases.push("9".repeat(308));
    cases.push("9".repeat(309));
    cases.push("9".repeat(310));
    cases.push("9".repeat(2000));
    cases.push(format!("1{}", "0".repeat(10000)));
    for digits in cases {
        let expected: f64 = digits.parse().unwrap();
        let program = parse(&format!("a = {}", digits)).unwrap();
        let state = run(&program).unwrap();
        let computed = match state.get("a").unwrap() {
            Value::Number(number) => number.bits,
            other => panic!("not a number: {:?}", other),
        };
        assert_eq!(computed, expected.to_bits(), "reading {}", digits);
    }
}

fn patterns() -> Vec<u64> {
    let mut values: Vec<u64> = samples().iter().map(|value| value.to_bits()).collect();
    let mut state = 0x1234_5678_9abc_def1u64;
    for _ in 0..3000 {
        state ^= state << 13;
        state ^= state >> 7;
        state ^= state << 17;
        values.push(state);
        values.push(state & 0x800f_ffff_ffff_ffff);
        values.push((state & 0x800f_ffff_ffff_ffff) | 0x0010_0000_0000_0000);
        values.push((state & 0x800f_ffff_ffff_ffff) | 0x3ff0_0000_0000_0000);
        values.push((state & 0x800f_ffff_ffff_ffff) | 0x7fe0_0000_0000_0000);
    }
    values
}

fn pairs() -> Vec<(u64, u64)> {
    let values = patterns();
    let mut chosen = Vec::new();
    let special: Vec<u64> = samples().iter().map(|value| value.to_bits()).collect();
    for a in &special {
        for b in &special {
            chosen.push((*a, *b));
        }
    }
    let mut state = 0x0fed_cba9_8765_4321u64;
    for _ in 0..40000 {
        state ^= state << 13;
        state ^= state >> 7;
        state ^= state << 17;
        let a = values[(state % values.len() as u64) as usize];
        state ^= state << 13;
        state ^= state >> 7;
        state ^= state << 17;
        let b = values[(state % values.len() as u64) as usize];
        chosen.push((a, b));
        let exponent = (a >> 52) & 0x7ff;
        for delta in [0u64, 1, 2, 52, 53, 54, 55, 60, 61, 62, 63, 64, 65] {
            if exponent > delta {
                let near = (b & 0x800f_ffff_ffff_ffff) | ((exponent - delta) << 52);
                chosen.push((a, near));
                chosen.push((near, a));
            }
        }
    }
    chosen
}

#[test]
fn products_are_those_of_the_host() {
    for (a, b) in pairs() {
        let expected = f64::from_bits(a) * f64::from_bits(b);
        let computed = Number { bits: a }.times(Number { bits: b }).bits;
        assert!(
            same(f64::from_bits(computed), expected),
            "{:e} * {:e}: {:e} and not {:e}",
            f64::from_bits(a),
            f64::from_bits(b),
            f64::from_bits(computed),
            expected
        );
    }
}

#[test]
fn quotients_are_those_of_the_host() {
    for (a, b) in pairs() {
        let expected = f64::from_bits(a) / f64::from_bits(b);
        let computed = Number { bits: a }.over(Number { bits: b }).bits;
        assert!(
            same(f64::from_bits(computed), expected),
            "{:e} / {:e}: {:e} and not {:e}",
            f64::from_bits(a),
            f64::from_bits(b),
            f64::from_bits(computed),
            expected
        );
    }
}

#[test]
fn sums_are_those_of_the_host() {
    for (a, b) in pairs() {
        let expected = f64::from_bits(a) + f64::from_bits(b);
        let computed = Number { bits: a }.plus(Number { bits: b }).bits;
        assert!(
            computed == expected.to_bits() || (f64::from_bits(computed).is_nan() && expected.is_nan()),
            "{:e} + {:e}: {:e} and not {:e}",
            f64::from_bits(a),
            f64::from_bits(b),
            f64::from_bits(computed),
            expected
        );
    }
}

#[test]
fn differences_are_those_of_the_host() {
    for (a, b) in pairs() {
        let expected = f64::from_bits(a) - f64::from_bits(b);
        let computed = Number { bits: a }.minus(Number { bits: b }).bits;
        assert!(
            computed == expected.to_bits() || (f64::from_bits(computed).is_nan() && expected.is_nan()),
            "{:e} - {:e}: {:e} and not {:e}",
            f64::from_bits(a),
            f64::from_bits(b),
            f64::from_bits(computed),
            expected
        );
    }
}

#[test]
fn zeros_keep_their_signs() {
    let zero = Number { bits: 0f64.to_bits() };
    let minus_zero = Number { bits: (-0f64).to_bits() };
    let one = Number { bits: 1f64.to_bits() };
    let minus_one = Number { bits: (-1f64).to_bits() };
    assert_eq!(zero.plus(zero).bits, 0f64.to_bits());
    assert_eq!(zero.plus(minus_zero).bits, 0f64.to_bits());
    assert_eq!(minus_zero.plus(zero).bits, 0f64.to_bits());
    assert_eq!(minus_zero.plus(minus_zero).bits, (-0f64).to_bits());
    assert_eq!(one.plus(minus_one).bits, 0f64.to_bits());
    assert_eq!(minus_one.plus(one).bits, 0f64.to_bits());
    assert_eq!(one.minus(one).bits, 0f64.to_bits());
    assert_eq!(minus_zero.minus(zero).bits, (-0f64).to_bits());
    assert_eq!(zero.minus(zero).bits, 0f64.to_bits());
    assert_eq!(zero.times(minus_one).bits, (-0f64).to_bits());
    assert_eq!(minus_zero.times(minus_one).bits, 0f64.to_bits());
    assert_eq!(zero.over(minus_one).bits, (-0f64).to_bits());
    assert_eq!(one.over(minus_zero).bits, f64::NEG_INFINITY.to_bits());
    assert_eq!(one.over(zero).bits, f64::INFINITY.to_bits());
}

#[test]
fn operations_examples() {
    let number = |value: f64| Number { bits: value.to_bits() };
    assert_eq!(number(2.0).plus(number(2.0)).bits, 4f64.to_bits());
    assert_eq!(number(13.0).minus(number(8.0)).bits, 5f64.to_bits());
    assert_eq!(number(2.0).times(number(3.0)).bits, 6f64.to_bits());
    assert_eq!(number(6.0).over(number(2.0)).bits, 3f64.to_bits());
    assert_eq!(number(1.0).over(number(3.0)).bits, 0x3fd5_5555_5555_5555);
    assert_eq!(number(0.1).plus(number(0.2)).bits, 0.30000000000000004f64.to_bits());
    assert_eq!(number(f64::MAX).plus(number(f64::MAX)).bits, f64::INFINITY.to_bits());
    assert_eq!(number(f64::MAX).times(number(2.0)).bits, f64::INFINITY.to_bits());
    assert_eq!(number(5e-324).over(number(2.0)).bits, 0);
    assert_eq!(number(5e-324).times(number(0.75)).bits, 1);
    assert_eq!(number(1e308).times(number(1e-308)).bits, (1e308f64 * 1e-308f64).to_bits());
    assert!(f64::from_bits(number(f64::INFINITY).minus(number(f64::INFINITY)).bits).is_nan());
    assert!(f64::from_bits(number(f64::INFINITY).times(number(0.0)).bits).is_nan());
    assert!(f64::from_bits(number(0.0).over(number(0.0)).bits).is_nan());
    assert!(f64::from_bits(number(f64::NAN).plus(number(1.0)).bits).is_nan());
}
