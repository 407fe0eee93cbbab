use net_tools::number::{print_u64, read_u32, Number};
use net_tools::share::percent_lost;

fn chars(s: &str) -> Vec<char> {
    s.chars().collect()
}

/// Holds a text to what the standard library makes of it.
fn compare(s: &str) {
    let ours = Number::read(&chars(s));
    match s.parse::<f32>() {
        Ok(v) => {
            let n = ours.unwrap_or_else(|| panic!("{s:?} is a number"));
            assert_eq!(n.as_str(), s);
            assert_eq!(n.count(), v as u32, "{s:?}");
            assert_eq!(n.is_below_ten(), v < 10.0, "{s:?}");
            assert_eq!(n.is_zero(), v == 0.0, "{s:?}");
        }
        Err(_) => assert!(ours.is_none(), "{s:?} is no number"),
    }
    assert_eq!(read_u32(&chars(s)), s.parse::<u32>().ok(), "{s:?}");
}

struct Lcg(u64);

impl Lcg {
    fn next(&mut self, bound: usize) -> usize {
        self.0 = self.0.wrapping_mul(6364136223846793005).wrapping_add(1442695040888963407);
        ((self.0 >> 33) as usize) % bound
    }
}

#[test]
fn chosen_texts_are_read_as_the_standard_library_does() {
    for s in [
        "", "+", "-", ".", "+.", "0", "4", "+4", "-4", "4.", ".5", "-.5", "0.5", "00012", "1.2.3",
        "1e3", "1E3", "1e+3", "1e-3", "1e", "1e+", "e3", ".e3", "1.e3", ".5e1", "1e3.0", "1 ",
        " 1", "1_000", "0x10", "inf", "INF", "-inf", "+Inf", "infinity", "Infinity", "infinit",
        "nan", "NaN", "-nan", "+NAN", "nano", "٣", "1e99999999999999999999999", "1e-9999999999999999999999",
        "0e99999999999999999999999", "-1e99999999999999999999999", "4294967295", "4294967296",
        "4294967167", "4294967168", "4294967169", "4294967039", "4294967040", "4294967041",
        "16777215", "16777216", "16777217", "16777218", "16777219", "33554433", "33554435",
        "2.9999999", "2.99999999", "2.999999999", "0.99999997", "0.99999998", "0.9999999701976776",
        "0.99999997019767761230468750", "0.999999970197677612304687499999999999999999",
        "0.99999997019767761230468750000000000000000001", "0.5", "0.4999999999", "8", "7.9999999",
        "9.9999995", "9.9999996", "9.99999952316284179687500", "9.999999523162841796874999999999",
        "9.9999995231628417968750000000000000001", "10", "10.000001", "1e1", "99e-1", "1e2",
        "16", "15.9999999", "3.4028236e38", "1e38", "1e39", "0.00000000000000000000000000000000000001",
        "123456789012345678901234567890", "00000000000000000000000000000000000000000000000000007",
        "7000000000000000000000000000000000000000000000000000000000000e-60",
        "0.0000000000000000000000000000000000000000000000000000000000007e61",
    ] {
        compare(s);
    }
}

#[test]
fn random_texts_are_read_as_the_standard_library_does() {
    let alphabet: Vec<char> = "0123456789012345678901234567899.eE+-".chars().collect();
    let mut rng = Lcg(1);
    for _ in 0..50_000 {
        let len = 1 + rng.next(14);
        let s: String = (0..len).map(|_| alphabet[rng.next(alphabet.len())]).collect();
        compare(&s);
    }
}

#[test]
fn random_decimals_are_read_as_the_standard_library_does() {
    let mut rng = Lcg(7);
    for _ in 0..20_000 {
        let whole: String = (0..rng.next(12)).map(|_| char::from(b'0' + rng.next(10) as u8)).collect();
        let fraction: String =
            (0..rng.next(40)).map(|_| char::from(b'0' + rng.next(10) as u8)).collect();
        compare(&format!("{whole}.{fraction}"));
        let exponent = rng.next(60) as i64 - 30;
        compare(&format!("{whole}.{fraction}e{exponent}"));
    }
}

#[test]
fn ties_between_values_are_read_as_the_standard_library_does() {
    // Halfway between two neighbouring single-precision values, and a hair to
    // either side.
    let mut rng = Lcg(3);
    for _ in 0..10_000 {
        let bits = 0x3f00_0000u32 + (rng.next(0x1000_0000) as u32);
        let low = f32::from_bits(bits) as f64;
        let high = f32::from_bits(bits + 1) as f64;
        let middle = (low + high) / 2.0;
        let text = format!("{middle:.40}");
        compare(&text);
        compare(&format!("{text}1"));
        compare(&format!("{:.40}", f64::from_bits(middle.to_bits() - 1)));
    }
}

#[test]
fn printed_numbers_are_decimal() {
    assert_eq!(print_u64(0), "0");
    assert_eq!(print_u64(9), "9");
    assert_eq!(print_u64(10), "10");
    assert_eq!(print_u64(90210), "90210");
    assert_eq!(print_u64(u64::MAX), "18446744073709551615");
    for n in [0u32, 1, 20, 255, 65535, u32::MAX] {
        assert_eq!(read_u32(&chars(&print_u64(n as u64))), Some(n));
    }
}

#[test]
fn plain_counters_read_back() {
    for n in (0u32..=16_777_216).step_by(9973).chain([16_777_215, 16_777_216]) {
        let number = Number::read(&chars(&n.to_string())).unwrap();
        assert_eq!(number.count(), n);
        assert_eq!(number.clone().as_str(), number.as_str());
    }
    assert_eq!(Number::read(&chars("16777217")).unwrap().count(), 16_777_216);
}

#[test]
fn the_smallest_values_are_told_from_zero() {
    // Half of the smallest value above zero, and a hair to either side.
    let half = format!("{:.150}", 2f64.powi(-150));
    assert!(Number::read(&chars(&half)).unwrap().is_zero());
    compare(&half);
    compare(&format!("{half}1"));
    compare(&format!("-{half}"));
    let mut below: Vec<char> = chars(&half);
    let last = below.len() - 1;
    below[last] = '4';
    compare(&below.iter().collect::<String>());
    for s in ["7e-46", "7.1e-46", "0.7006e-45", "71e-47", "1e-45", "9e-46", "1e-46", "-7e-46"] {
        compare(s);
    }
    assert!(!Number::read(&chars(&format!("{half}1"))).unwrap().is_zero());
    for s in ["0", "-0.0", "0e99999999999999999999999999999999999999", "1e-99999999999999999999999999999999"] {
        assert!(Number::read(&chars(s)).unwrap().is_zero(), "{s}");
    }
    for s in ["1", "nan", "inf", "-inf", "1e99999999999999999999999999999999"] {
        assert!(!Number::read(&chars(s)).unwrap().is_zero(), "{s}");
    }
}

#[test]
fn shares_print_as_the_standard_library_prints_them() {
    let check = |lost: u32, sent: u32| {
        let share = lost as f32 / sent as f32 * 100.0;
        assert_eq!(percent_lost(lost, sent).to_string(), format!("{share:.0}"), "{lost}/{sent}");
    };
    for sent in 1..=1000 {
        for lost in 0..=sent {
            check(lost, sent);
        }
    }
    let mut rng = Lcg(5);
    for _ in 0..200_000 {
        let sent = 1 + rng.next(16_777_216) as u32;
        check(rng.next(sent as usize + 1) as u32, sent);
        // Shares close to a half percent.
        let percent = rng.next(100) as u64;
        check(((2 * percent + 1) * sent as u64 / 200) as u32, sent);
    }
    assert_eq!(percent_lost(0, 7), 0);
    assert_eq!(percent_lost(7, 7), 100);
    assert_eq!(percent_lost(1, 4), 25);
}
