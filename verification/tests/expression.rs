use esprit2::expression::{Error, Expression, ExpressionResult, Integer, Operation, Variables};

struct Stats;

impl Variables for Stats {
    fn get(&self, s: &str) -> Result<Integer, Error> {
        match s {
            "power" => Ok(4),
            "level" => Ok(2),
            _ => Err(Error::MissingVariable(s.to_string())),
        }
    }
}

fn parse(s: &str) -> Expression {
    Expression::try_from(String::from(s)).unwrap()
}

#[test]
fn integers_evaluate_to_themselves() {
    assert_eq!(parse("42").evaluate(&()).unwrap(), 42);
    assert_eq!(<i64 as ExpressionResult>::eval(&parse("7")), 7);
}

#[test]
fn products_bind_tighter_than_sums() {
    assert_eq!(parse("1 + 2 * 3").evaluate(&()).unwrap(), 7);
    assert_eq!(parse("2 * 3 + 1").evaluate(&()).unwrap(), 7);
}

#[test]
fn sums_group_to_the_left_with_constants_on_the_right() {
    // `10 - 4` becomes `4 - 10`, since the constant 10 is moved to the right; then `- 3`.
    assert_eq!(parse("10 - 4 - 3").evaluate(&()).unwrap(), -9);
}

#[test]
fn a_constant_always_stands_on_the_right() {
    // `2 - x` is taken as `x - 2`, and `8 / x` as `x / 8`.
    assert_eq!(parse("2 - power").evaluate(&Stats).unwrap(), 2);
    assert_eq!(parse("8 / power").evaluate(&Stats).unwrap(), 0);
    assert!(matches!(parse("2 - power").root, Operation::SubC(_, 2)));
}

#[test]
fn variables_are_looked_up() {
    assert_eq!(parse("power * level + 1").evaluate(&Stats).unwrap(), 9);
    assert_eq!(parse("power / level").evaluate(&Stats).unwrap(), 2);
}

#[test]
fn missing_variables_fail() {
    assert!(matches!(parse("power + speed").evaluate(&Stats), Err(Error::MissingVariable(name)) if name == "speed"));
    assert!(matches!(parse("power").evaluate(&()), Err(Error::NoVariables(name)) if name == "power"));
}

#[test]
fn rolls_stay_within_their_dice() {
    let e = parse("3d6");
    for _ in 0..50 {
        let v = e.evaluate(&()).unwrap();
        assert!((3..=18).contains(&v));
    }
    assert_eq!(parse("0d6").evaluate(&()).unwrap(), 0);
    assert!(matches!(parse("2d0").evaluate(&()), Err(Error::Arithmetic)));
}

#[test]
fn arithmetic_out_of_range_fails() {
    assert!(matches!(parse("power / 0").evaluate(&Stats), Err(Error::Arithmetic)));
    assert!(matches!(parse("9223372036854775807 + power").evaluate(&Stats), Err(Error::Arithmetic)));
}

#[test]
fn typed_results() {
    assert_eq!(<Result<u8, Error> as ExpressionResult>::eval(&parse("200 + 55")).unwrap(), 255);
    assert!(matches!(
        <Result<u8, Error> as ExpressionResult>::eval(&parse("200 + 56")),
        Err(Error::OutOfRange(256, "u8"))
    ));
    assert_eq!(<u8 as ExpressionResult>::eval(&parse("200 + 56")), 0);
    assert_eq!(<i32 as ExpressionResult>::evalv(&parse("power - 10"), &Stats), -6);
    assert_eq!(<u32 as ExpressionResult>::evalv(&parse("power - 10"), &Stats), 0);
}

#[test]
fn malformed_expressions_are_refused() {
    assert!(Expression::try_from(String::from("")).is_err());
    assert!(Expression::try_from(String::from("1 +")).is_err());
    assert!(Expression::try_from(String::from("+ 1")).is_err());
    assert!(Expression::try_from(String::from("1 2")).is_err());
    assert!(Expression::try_from(String::from("3d")).is_err());
    assert!(Expression::try_from(String::from("(1)")).is_err());
    assert!(Expression::try_from(String::from("99999999999999999999")).is_err());
}

#[test]
fn default_expression_is_zero() {
    let e = Expression::default();
    assert_eq!(e.source, "0");
    assert_eq!(e.evaluate(&()).unwrap(), 0);
}

#[test]
fn variable_spans_and_segments() {
    let e = parse("power + 2 * level");
    assert_eq!(e.variable_spans(), vec![(0, 5), (12, 17)]);
    assert_eq!(e.label_segments(), vec![(0, 5, true), (5, 12, false), (12, 17, true)]);
    let e = parse(" 1 + x ");
    assert_eq!(e.label_segments(), vec![(0, 5, false), (5, 6, true), (6, 7, false)]);
}

#[test]
fn evaluation_errors_say_what_went_wrong() {
    assert!(matches!(
        <Result<u8, Error> as ExpressionResult>::eval(&parse("300")),
        Err(Error::OutOfRange(300, "u8"))
    ));
    assert_eq!(<u8 as ExpressionResult>::eval(&parse("300")), 0);
    assert!(matches!(
        <Result<i64, Error> as ExpressionResult>::eval(&parse("x + 1")),
        Err(Error::NoVariables(name)) if name == "x"
    ));
    assert_eq!(<i64 as ExpressionResult>::eval(&parse("x + 1")), 0);
    assert!(matches!(
        <Result<i64, Error> as ExpressionResult>::evalv(&parse("luck + 1"), &Stats),
        Err(Error::MissingVariable(name)) if name == "luck"
    ));
}

#[test]
fn a_leading_constant_trades_places_with_the_other_operand() {
    assert_eq!(parse("10 - 3").evaluate(&()).unwrap(), -7);
    assert_eq!(parse("8 / 2").evaluate(&()).unwrap(), 0);
    assert_eq!(parse("3 - 10").evaluate(&()).unwrap(), 7);
}
