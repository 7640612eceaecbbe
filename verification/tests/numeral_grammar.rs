use jabba::numeral::is_float_literal;

fn spellings() -> Vec<&'static str> {
    vec![
        "0",
        "1",
        "007",
        "1.",
        ".5",
        "1.5",
        "0.013",
        "-0.02",
        "+3",
        "-0",
        "1e5",
        "1E5",
        "1e+5",
        "1e-5",
        "1.e5",
        ".5e5",
        "1.5e-10",
        "12345678901234567890123456789",
        "1e400",
        "1e-400",
        "inf",
        "INF",
        "Inf",
        "+inf",
        "-inf",
        "infinity",
        "Infinity",
        "-INFINITY",
        "nan",
        "NaN",
        "-nan",
        "+NAN",
        "340282350000000000000000000000000000000",
        "0.000000000000000000000000000000000000000000001",
    ]
}

fn others() -> Vec<&'static str> {
    vec![
        "",
        "+",
        "-",
        ".",
        "+.",
        "e",
        "e5",
        "1e",
        "1e+",
        "1e-",
        "1e5.",
        "1e5e5",
        "1.5.",
        "1..5",
        "..",
        ".e5",
        "+-1",
        "--1",
        "1-",
        "1+1",
        " 1",
        "1 ",
        "1\n",
        "1_000",
        "0x10",
        "1f",
        "1.5f32",
        "in",
        "infi",
        "infinit",
        "infinityy",
        "na",
        "nana",
        "n",
        "i",
        "a",
        "x",
        "١",
        "1,5",
    ]
}

#[test]
fn what_the_grammar_takes_is_read_as_a_number() {
    for s in spellings() {
        assert!(is_float_literal(s.as_bytes()), "{s:?}");
        assert!(s.parse::<f32>().is_ok(), "{s:?}");
    }
}

#[test]
fn what_the_grammar_leaves_is_not_read() {
    for s in others() {
        assert!(!is_float_literal(s.as_bytes()), "{s:?}");
        assert!(s.parse::<f32>().is_err(), "{s:?}");
    }
}

#[test]
fn every_number_prints_as_the_grammar_takes() {
    let mut values = vec![
        0.0f32,
        -0.0,
        1.0,
        -1.0,
        0.1,
        0.013,
        -0.02,
        1.0e-7,
        1.0e-45,
        16777217.0,
        f32::MAX,
        f32::MIN,
        f32::MIN_POSITIVE,
        f32::EPSILON,
        f32::INFINITY,
        f32::NEG_INFINITY,
        f32::NAN,
    ];
    let mut bits: u32 = 0x1234_5678;
    for _ in 0..2000 {
        bits = bits.wrapping_mul(1664525).wrapping_add(1013904223);
        values.push(f32::from_bits(bits));
    }
    for v in values {
        let printed = v.to_string();
        assert!(is_float_literal(printed.as_bytes()), "{printed:?}");
        let back: f32 = printed.parse().unwrap();
        assert!(back.to_bits() == v.to_bits() || (back.is_nan() && v.is_nan()), "{printed:?}");
    }
}
