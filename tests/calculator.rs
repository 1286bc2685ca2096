use calculator::engine::CalculatorState;
use calculator::number::Operator;
use calculator::text::{parse_decimal, shows_negative, Decimal, Operand};

/// Presses the keys written in `keys`: digits, `.`, `+ - * /`, `=`,
/// `r` for the square root and `C` for clear.
fn press(c: &mut CalculatorState, keys: &str) {
    for k in keys.chars() {
        match k {
            '0'..='9' => c.digit(k),
            '.' => c.decimal_point(),
            '=' => c.equals(),
            'r' => c.square_root(),
            'C' => c.clear(),
            _ => c.binary_operator(Operator::from_char(k).unwrap()),
        }
    }
}

fn after(keys: &str) -> String {
    let mut c = CalculatorState::new();
    press(&mut c, keys);
    c.display()
}

fn assert_initial(c: &CalculatorState) {
    assert_eq!(c.display(), "0");
    assert_eq!(c.pending_operand(), None);
    assert_eq!(c.pending_operator(), None);
    assert!(!c.awaiting_new_entry());
}

#[test]
fn new_state_is_default() {
    assert_initial(&CalculatorState::new());
    assert_initial(&CalculatorState::default());
}

#[test]
fn clear_from_any_state_gives_default() {
    for keys in ["", "123", "5+", "5+3", "5+3=", "1/0=", "2.5", "9r", "0-4=r", "7*"] {
        let mut c = CalculatorState::new();
        press(&mut c, keys);
        c.clear();
        assert_initial(&c);
    }
}

#[test]
fn clear_twice_equals_clear_once() {
    let mut c = CalculatorState::new();
    press(&mut c, "12*3");
    c.clear();
    c.clear();
    assert_initial(&c);
}

#[test]
fn digits_one_two_three_show_123() {
    assert_eq!(after("123"), "123");
}

#[test]
fn five_plus_three_equals_eight() {
    let mut c = CalculatorState::new();
    press(&mut c, "5+");
    assert_eq!(c.display(), "0");
    assert_eq!(c.pending_operand(), Some(Operand::Number(Decimal { mantissa: 5, scale: 0 })));
    assert_eq!(c.pending_operator(), Some(Operator::Add));
    assert!(c.awaiting_new_entry());
    press(&mut c, "3=");
    assert_eq!(c.display(), "8");
    assert_eq!(c.pending_operand(), None);
    assert_eq!(c.pending_operator(), None);
    assert!(!c.awaiting_new_entry());
}

#[test]
fn division_by_zero_shows_error() {
    let mut c = CalculatorState::new();
    press(&mut c, "1/0=");
    assert_eq!(c.display(), "Error");
    assert_eq!(c.pending_operand(), None);
    assert_eq!(c.pending_operator(), None);
    assert!(!c.awaiting_new_entry());
}

#[test]
fn square_root_of_sixteen_and_of_minus_four() {
    assert_eq!(after("16r"), "4");
    assert_eq!(after("0-4="), "-4");
    assert_eq!(after("0-4=r"), "Error");
}

#[test]
fn one_third_is_rounded_to_six_places() {
    assert_eq!(after("1/3="), "0.333333");
    assert_eq!(after("2/3="), "0.666667");
}

#[test]
fn typed_numbers_are_shown_unchanged() {
    for s in ["0", "7", "0.5", "0.05", "10", "100.001", "3.", "123456789012345678901234567890"] {
        assert_eq!(after(s), s);
    }
}

#[test]
fn results_are_exact_decimals() {
    assert_eq!(after("0.1+0.2="), "0.3");
    assert_eq!(after("10/4="), "2.5");
    assert_eq!(after("7-10="), "-3");
    assert_eq!(after("2.5*4="), "10");
    assert_eq!(after("1.5*1.5="), "2.25");
    assert_eq!(after("999999999999999*999999999999999="), "999999999999998000000000000001");
}

#[test]
fn rounding_goes_half_away_from_zero() {
    assert_eq!(after("0.0000005*1="), "0.000001");
    assert_eq!(after("0-0.0000005="), "-0.000001");
    assert_eq!(after("0.0000004*1="), "0");
    assert_eq!(after("0-0.0000004="), "0");
    assert_eq!(after("0.9999996+0="), "1");
}

#[test]
fn square_roots_are_rounded_to_six_places() {
    assert_eq!(after("2r"), "1.414214");
    assert_eq!(after("0.25r"), "0.5");
    assert_eq!(after("0r"), "0");
    assert_eq!(after("0.000000000000001r"), "0");
    assert_eq!(after("999999999999999r"), "31622776.601684");
}

#[test]
fn square_root_cancels_a_pending_operation() {
    let mut c = CalculatorState::new();
    press(&mut c, "9+16r");
    assert_eq!(c.display(), "4");
    assert_eq!(c.pending_operand(), None);
    assert_eq!(c.pending_operator(), None);
    press(&mut c, "=");
    assert_eq!(c.display(), "4");
}

#[test]
fn second_operator_replaces_the_first() {
    assert_eq!(after("2+3*4="), "12");
    assert_eq!(after("5+-3="), "-3");
}

#[test]
fn equals_without_operation_does_nothing() {
    assert_eq!(after("5="), "5");
    assert_eq!(after("="), "0");
}

#[test]
fn result_is_extended_by_digits() {
    assert_eq!(after("2+3=4"), "54");
}

#[test]
fn decimal_point_is_added_once() {
    assert_eq!(after("1.5."), "1.5");
    assert_eq!(after("."), "0.");
    assert_eq!(after("5+.5="), "10");
    let mut c = CalculatorState::new();
    press(&mut c, "5+.");
    assert_eq!(c.display(), "0.");
    assert!(c.awaiting_new_entry());
}

#[test]
fn error_state_until_digit_or_clear() {
    let mut c = CalculatorState::new();
    press(&mut c, "1/0=");
    press(&mut c, ".");
    assert_eq!(c.display(), "Error");
    press(&mut c, "+");
    assert_eq!(c.display(), "Error");
    assert_eq!(c.pending_operator(), None);
    press(&mut c, "=");
    assert_eq!(c.display(), "Error");
    press(&mut c, "7");
    assert_eq!(c.display(), "7");
    press(&mut c, "r");
    assert_eq!(c.display(), "2.645751");
    assert_eq!(after("1/0=r"), "Error");
}

#[test]
fn number_beyond_range_is_taken_as_operand_and_gives_error() {
    let mut c = CalculatorState::new();
    press(&mut c, "1000000000000000000+");
    assert_eq!(c.display(), "0");
    assert_eq!(c.pending_operand(), Some(Operand::OutOfRange));
    assert_eq!(c.pending_operator(), Some(Operator::Add));
    assert!(c.awaiting_new_entry());
    press(&mut c, "1=");
    assert_eq!(c.display(), "Error");
    assert_eq!(c.pending_operand(), None);
    assert_eq!(c.pending_operator(), None);
    assert_eq!(after("1+1000000000000000000="), "Error");
    assert_eq!(after("1000000000000000000r"), "Error");
    assert_eq!(after("1/0.0000000000000000="), "Error");
}

#[test]
fn sixteen_and_seventeen_digit_numbers_are_values() {
    assert_eq!(after("1+1000000000000000="), "1000000000000001");
    assert_eq!(after("1000000000000000r"), "31622776.601684");
    assert_eq!(after("1*1000000000000000.5="), "1000000000000000.5");
    assert_eq!(after("99999999*99999999=+1="), "9999999800000002");
    assert_eq!(after("999999999999999999*999999999999999999="), "999999999999999998000000000000000001");
    assert_eq!(after("999999999999999999/0.000000000000001="), "999999999999999999000000000000000");
}

#[test]
fn result_beyond_range_can_be_taken_as_operand() {
    let mut c = CalculatorState::new();
    press(&mut c, "999999999999*999999999=");
    assert_eq!(c.display(), "999999998999000000001");
    press(&mut c, "*");
    assert_eq!(c.pending_operand(), Some(Operand::OutOfRange));
    assert_eq!(c.display(), "0");
    press(&mut c, "10=");
    assert_eq!(c.display(), "Error");
}

#[test]
fn negative_text_is_seen_below_the_places_held() {
    let neg = |s: &str| shows_negative(&s.chars().collect());
    assert!(neg("-0.0000000000000000001"));
    assert!(neg("-4"));
    assert!(!neg("-0.000"));
    assert!(!neg("4"));
}

#[test]
fn places_beyond_eighteen_are_rounded() {
    assert_eq!(after("1/0.0000000000000001="), "10000000000000000");
    assert_eq!(after("1*0.0000000000000001="), "0");
    assert_eq!(after("3*0.33333333333333333333="), "1");
    assert_eq!(after("0.9999999999999999+1="), "2");
}

#[test]
fn parse_reads_sign_point_and_bounds() {
    let p = |s: &str| parse_decimal(&s.chars().collect());
    let num = |mantissa: i64, scale: u32| Some(Operand::Number(Decimal { mantissa, scale }));
    assert_eq!(p("-12.50"), num(-1250, 2));
    assert_eq!(p("3."), num(3, 0));
    assert_eq!(p("1000000000000000"), num(1000000000000000, 0));
    assert_eq!(p("0.000000000000001"), num(1, 15));
    assert_eq!(p("0.0000000000000001"), num(1, 16));
    assert_eq!(p("-0.0000000000000015"), num(-15, 16));
    assert_eq!(p("0.9999999999999999"), num(9999999999999999, 16));
    assert_eq!(p("0.0000000000000000001"), num(0, 18));
    assert_eq!(p("0.0000000000000000005"), num(1, 18));
    assert_eq!(p("-0.00000000000000000149"), num(-1, 18));
    assert_eq!(p("100000000000000.0"), num(1000000000000000, 1));
    assert_eq!(p("100000000000000000.0"), num(100000000000000000, 0));
    assert_eq!(p("999999999999999999"), num(999999999999999999, 0));
    assert_eq!(p("1000000000000000000"), Some(Operand::OutOfRange));
    assert_eq!(p("-1000000000000000000"), Some(Operand::OutOfRange));
    assert_eq!(p("Error"), None);
    assert_eq!(p(""), None);
    assert_eq!(p("-"), None);
    assert_eq!(p(".5"), None);
    assert_eq!(p("1.2.3"), None);
}

#[test]
fn operator_from_char() {
    assert_eq!(Operator::from_char('+'), Some(Operator::Add));
    assert_eq!(Operator::from_char('-'), Some(Operator::Sub));
    assert_eq!(Operator::from_char('*'), Some(Operator::Mul));
    assert_eq!(Operator::from_char('/'), Some(Operator::Div));
    assert_eq!(Operator::from_char('x'), None);
}
