use basecamp::number::Number;
use basecamp::reading::{read_number, read_port};

fn bits(n: &Number) -> u64 {
    match n {
        Number::Nan => f64::NAN.to_bits(),
        Number::Infinite { negative } => {
            if *negative {
                f64::NEG_INFINITY.to_bits()
            } else {
                f64::INFINITY.to_bits()
            }
        }
        Number::Finite { negative, m, shift } => {
            let magnitude = ((*shift as u64) << 52) + *m;
            if *negative {
                magnitude | (1 << 63)
            } else {
                magnitude
            }
        }
    }
}

fn same_reading(text: &str) {
    let ours = read_number(text).map(|n| bits(&n));
    let theirs = text.parse::<f64>().ok().map(|f| if f.is_nan() { f64::NAN.to_bits() } else { f.to_bits() });
    assert_eq!(ours, theirs, "{:?}", text);
}

struct Dice(u64);

impl Dice {
    fn roll(&mut self) -> u64 {
        self.0 ^= self.0 << 13;
        self.0 ^= self.0 >> 7;
        self.0 ^= self.0 << 17;
        self.0
    }
}

#[test]
fn plain_numbers_are_read() {
    for text in [
        "0", "1", "14074.0", "14.074", "7030", "-3.5", "+2.25", "0.1", "0.2", "0.3", "1e3", "1E-3", "1.e2", ".5", "5.",
        "00012.500", "9007199254740993", "9007199254740992.5", "123456789012345678901234567890", "1e22", "1e23",
        "2.2250738585072011e-308", "4.9e-324", "2e-324", "2.4703282292062327e-324", "2.4703282292062328e-324",
        "1.7976931348623157e308", "1.7976931348623158e308", "1.7976931348623159e308", "1e400", "-1e400", "1e-400",
        "1e999999999999999999999999999999999999999", "1e-999999999999999999999999999999999999999",
        "0e999999999999999999999999999999999999999", "inf", "-inf", "+Infinity", "INF", "nan", "NaN", "-nan", "-0",
        "0.000000000000000000000000000000000000000000000000000000000000001",
    ] {
        same_reading(text);
    }
}

#[test]
fn texts_that_are_no_numbers_are_refused() {
    for text in [
        "", "+", "-", ".", "e5", "1e", "1e+", "1e-", "1.2.3", "1,5", " 1", "1 ", "0x10", "infin", "na", "+-1", "--1",
        "1e5.0", "1e1e1", "١٢", "1_000", "in", "infinityx", "½", "e", ".e1",
    ] {
        same_reading(text);
        assert!(read_number(text).is_none(), "{:?}", text);
    }
}

#[test]
fn random_decimals_are_read_to_the_nearest_value() {
    let mut dice = Dice(0x9E3779B97F4A7C15);
    for _ in 0..400 {
        let a = dice.roll() % 1_000_000;
        let b = dice.roll() % 100_000;
        same_reading(&format!("{}.{}", a, b));
    }
    for _ in 0..60 {
        let digits = dice.roll();
        let exponent = (dice.roll() % 640) as i64 - 330;
        same_reading(&format!("{}e{}", digits, exponent));
        same_reading(&format!("0.{:020}{}", dice.roll(), dice.roll()));
    }
}

#[test]
fn random_values_survive_writing_and_reading() {
    let mut dice = Dice(42);
    for _ in 0..40 {
        let f = f64::from_bits(dice.roll());
        if f.is_nan() {
            continue;
        }
        same_reading(&format!("{:e}", f));
        let n = Number::from_bits(f.to_bits());
        assert_eq!(bits(&n), f.to_bits());
    }
}

#[test]
fn fixed_texts_round_half_to_even() {
    for (f, places) in [
        (0.125, 2), (0.375, 2), (2.5, 0), (3.5, 0), (0.5, 0), (1.5, 0), (14074.05, 1), (0.25, 1), (0.75, 1), (0.35, 1),
        (-0.04, 1), (-0.0, 1), (0.0, 4), (1e21, 1), (123456.789, 4), (9.99996, 4), (99.95, 1), (999.9999999, 4), (5e-324, 4),
        (1.0e-5, 4), (7059.5, 1), (1250.0, 0), (f64::MAX, 1),
    ] {
        let n = Number::from_bits(f64::to_bits(f));
        assert_eq!(n.fixed_text(places), format!("{:.*}", places, f));
    }
    assert_eq!(Number::from_bits(f64::INFINITY.to_bits()).fixed_text(1), "inf");
    assert_eq!(Number::from_bits(f64::NEG_INFINITY.to_bits()).fixed_text(1), "-inf");
    assert_eq!(Number::from_bits(f64::NAN.to_bits()).fixed_text(1), "NaN");
}

#[test]
fn random_values_are_written_alike() {
    let mut dice = Dice(7);
    for _ in 0..300 {
        let f = (dice.roll() % 100_000_000) as f64 / ((dice.roll() % 9973) + 1) as f64;
        let n = Number::from_bits(f.to_bits());
        for places in [0usize, 1, 4] {
            assert_eq!(n.fixed_text(places), format!("{:.*}", places, f));
        }
        assert_eq!(bits(&n.times_thousand()), (f * 1000.0).to_bits());
        assert_eq!(bits(&n.over_thousand()), (f / 1000.0).to_bits());
        assert_eq!(n.truncate(), f as u64);
        assert_eq!(n.is_below(1000), f < 1000.0);
        assert_eq!(n.is_above(1000), f > 1000.0);
    }
}

#[test]
fn arithmetic_agrees_at_the_edges() {
    for f in [
        0.0, -0.0, 1.0, -1.0, 999.9999999999999, 1000.0, 1000.0000000000001, 5e-324, 2.2250738585072014e-308, f64::MAX,
        f64::INFINITY, f64::NEG_INFINITY, 1.8e19, 18446744073709551615.0, 0.9999999999999999,
    ] {
        let n = Number::from_bits(f64::to_bits(f));
        assert_eq!(bits(&n.times_thousand()), (f * 1000.0).to_bits(), "{}", f);
        assert_eq!(bits(&n.over_thousand()), (f / 1000.0).to_bits(), "{}", f);
        assert_eq!(n.truncate(), f as u64, "{}", f);
        assert_eq!(n.is_below(1000), f < 1000.0, "{}", f);
        assert_eq!(n.is_above(1000), f > 1000.0, "{}", f);
    }
    let nan = Number::from_bits(f64::NAN.to_bits());
    assert!(!nan.is_below(1000));
    assert!(!nan.is_above(1000));
    assert_eq!(nan.truncate(), 0);
}

#[test]
fn values_are_compared_as_numbers() {
    let values = [f64::NEG_INFINITY, -2.5, -0.0, 0.0, 5e-324, 7.03, 14.074, 1e300, f64::INFINITY];
    for a in values {
        for b in values {
            let x = Number::from_bits(a.to_bits());
            let y = Number::from_bits(b.to_bits());
            assert_eq!(x.is_less(&y), a < b);
        }
    }
}

#[test]
fn ports_are_read() {
    for text in ["0", "23", "+7300", "65535", "65536", "99999999999999999999", "", "+", "-1", "-0", " 23", "23 ", "2a", "0023"] {
        assert_eq!(read_port(text), text.parse::<u16>().ok(), "{:?}", text);
    }
}
