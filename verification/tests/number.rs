use grid_replay::number::{parse_number, Number};

fn chars(s: &str) -> Vec<char> {
    s.chars().collect()
}

fn accepts(s: &str) -> bool {
    parse_number(&chars(s)).is_some()
}

fn digits_and_point(s: &str) -> (bool, Vec<u8>, i128) {
    match parse_number(&chars(s)) {
        Some(Number::Finite(d)) => (d.is_negative(), d.digits().clone(), d.point()),
        _ => panic!("{:?} is no decimal", s),
    }
}

#[test]
fn accepts_what_the_float_parser_accepts() {
    let samples = [
        "", "+", "-", ".", "+.", "-.", "0", "7", "+7", "-7", "007", "1.", ".5", "+.5", "-.5", "1.5",
        "1.5.2", "--1", "+-1", "-+1", "1-", "e5", ".e5", "1e5", "1E5", "1e+5", "1e-5", "1e", "1e+",
        "1e-", "1.e5", "1.5e+10", "1e5.5", "1e5e5", "1ee5", "00012.500", "1e400", "1e-400", "1_0",
        " 1", "1 ", "1\t", "0x10", "0b1", "1f", "1f64", "1d", "١", "１", "½", "inf", "INF", "Inf",
        "+inf", "-inf", "infinity", "INFINITY", "-Infinity", "+iNfInItY", "infinit", "infinityy",
        "in", "i", "nan", "NaN", "NAN", "-nan", "+nan", "na", "nann", "nan0", "0nan", "inf.",
        "1inf", "123456789012345678901234567890", "0.000000000000000000000000000001",
        "1e99999999999999999999999999", "1e-99999999999999999999999999",
        "0e99999999999999999999999999", "9007199254740993", "1,5", "1;5", "+", "++1", "1+1",
    ];
    for s in samples {
        assert_eq!(accepts(s), s.parse::<f64>().is_ok(), "{:?}", s);
    }
}

#[test]
fn accepts_what_the_float_parser_accepts_of_all_short_texts() {
    let alphabet = ['0', '7', '.', 'e', 'E', '+', '-', 'i', 'n', 'f', 'a', 'N', ' ', 'y'];
    let mut texts: Vec<String> = vec![String::new()];
    let mut from = 0;
    for _ in 0..4 {
        let to = texts.len();
        for k in from..to {
            for c in alphabet {
                let mut t = texts[k].clone();
                t.push(c);
                texts.push(t);
            }
        }
        from = to;
    }
    assert_eq!(texts.len(), 1 + 14 + 14 * 14 + 14 * 14 * 14 + 14 * 14 * 14 * 14);
    for t in &texts {
        assert_eq!(accepts(t), t.parse::<f64>().is_ok(), "{:?}", t);
    }
}

#[test]
fn words_in_any_case() {
    assert!(matches!(parse_number(&chars("inf")), Some(Number::Infinite { negative: false })));
    assert!(matches!(parse_number(&chars("+INF")), Some(Number::Infinite { negative: false })));
    assert!(matches!(parse_number(&chars("-Infinity")), Some(Number::Infinite { negative: true })));
    assert!(matches!(parse_number(&chars("nan")), Some(Number::NaN)));
    assert!(matches!(parse_number(&chars("-NaN")), Some(Number::NaN)));
    assert!(parse_number(&chars("infinit")).is_none());
}

#[test]
fn digits_and_point_of_literals() {
    assert_eq!(digits_and_point("0"), (false, vec![0], 1));
    assert_eq!(digits_and_point("-12.5"), (true, vec![1, 2, 5], 2));
    assert_eq!(digits_and_point("+.25"), (false, vec![2, 5], 0));
    assert_eq!(digits_and_point("3."), (false, vec![3], 1));
    assert_eq!(digits_and_point("1.5e3"), (false, vec![1, 5], 4));
    assert_eq!(digits_and_point("1.5E-3"), (false, vec![1, 5], -2));
    assert_eq!(digits_and_point("0012e+01"), (false, vec![0, 0, 1, 2], 5));
}

#[test]
fn point_is_kept_within_its_limit() {
    let limit: i128 = 1 << 80;
    assert_eq!(digits_and_point("1e99999999999999999999999999999999").2, limit);
    assert_eq!(digits_and_point("1e-99999999999999999999999999999999").2, -limit);
    assert_eq!(digits_and_point("1e1208925819614629174706175").2, limit);
    assert_eq!(digits_and_point("1e1208925819614629174706174").2, limit - 1);
}

#[test]
fn zero_of_either_sign_is_zero() {
    for s in ["0", "-0", "+0.000", "0e5", "-.0e-7", "000"] {
        match parse_number(&chars(s)) {
            Some(Number::Finite(d)) => assert!(d.is_zero(), "{:?}", s),
            _ => panic!("{:?}", s),
        }
    }
    for s in ["1", "-0.0001", "0.0e0001", "10", "0000000000000000000000000000000000001"] {
        match parse_number(&chars(s)) {
            Some(Number::Finite(d)) => assert_eq!(d.is_zero(), s == "0.0e0001", "{:?}", s),
            _ => panic!("{:?}", s),
        }
    }
}
