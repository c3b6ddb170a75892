use randcli::decimal::Decimal;
use randcli::expr::{CalcError, Expr, Term};
use randcli::parser::{identifier, number, parse, spaces};

fn decimal_to_f64(d: &Decimal) -> f64 {
    let mut text = String::new();
    if d.negative {
        text.push('-');
    }
    if d.int_digits.is_empty() {
        text.push('0');
    }
    for x in &d.int_digits {
        text.push((b'0' + *x) as char);
    }
    if !d.frac_digits.is_empty() {
        text.push('.');
        for x in &d.frac_digits {
            text.push((b'0' + *x) as char);
        }
    }
    text.parse().unwrap()
}

fn terms(e: &Expr) -> Vec<(String, Vec<f64>)> {
    e.code
        .iter()
        .map(|Term(name, args)| (name.clone(), args.iter().map(decimal_to_f64).collect()))
        .collect()
}

fn parsed(input: &str) -> Vec<(String, Vec<f64>)> {
    terms(&parse(input.to_string()).unwrap())
}

fn t(name: &str, args: Vec<f64>) -> (String, Vec<f64>) {
    (name.to_string(), args)
}

fn chars(s: &str) -> Vec<char> {
    s.chars().collect()
}

#[test]
fn it_works() {
    assert_eq!(parsed("gauss"), vec![t("gauss", vec![])]);
    assert_eq!(parsed("gauss()"), vec![t("gauss", vec![])]);
    assert_eq!(parsed("gauss(0)"), vec![t("gauss", vec![0.0])]);
    assert_eq!(parsed("gauss(0, 1)"), vec![t("gauss", vec![0.0, 1.0])]);
    assert_eq!(
        parsed("seed(42) | gauss(0, 1)"),
        vec![t("seed", vec![42.0]), t("gauss", vec![0.0, 1.0])]
    );
    assert_eq!(
        parsed("seed(42) | gauss(0, 1) |     int "),
        vec![t("seed", vec![42.0]), t("gauss", vec![0.0, 1.0]), t("int", vec![])]
    );
}

#[test]
fn whitespace_variants_parse_alike() {
    let expected = vec![t("seed", vec![42.0]), t("gauss", vec![0.0, 1.0]), t("int", vec![])];
    assert_eq!(parsed("seed(42)|gauss(0,1)|int"), expected);
    assert_eq!(parsed("  seed ( 42 ) |\tgauss( 0 ,  1 )\n| int"), expected);
    assert_eq!(parsed("seed(42) | gauss(0, 1) |     int "), expected);
}

#[test]
fn number_shapes() {
    assert_eq!(parsed("f(12, .5, -1_000.25, 3_0)"), vec![t("f", vec![12.0, 0.5, -1000.25, 30.0])]);
    let (d, end) = number(&chars("  -1_0.0_5 ,"), 0).unwrap();
    assert!(d.negative);
    assert_eq!(d.int_digits, vec![1, 0]);
    assert_eq!(d.frac_digits, vec![0, 5]);
    assert_eq!(end, 11);
    assert!(number(&chars("abc"), 0).is_none());
    assert!(number(&chars("_1"), 0).is_none());
}

#[test]
fn identifier_heads_and_tails() {
    let (name, end) = identifier(&chars("  _a1#@ (x"), 0).unwrap();
    assert_eq!(name, "_a1#@");
    assert_eq!(end, 8);
    let (name, _) = identifier(&chars("été"), 0).unwrap();
    assert_eq!(name, "été");
    assert!(identifier(&chars("1abc"), 0).is_none());
    assert!(identifier(&chars("   "), 0).is_none());
}

#[test]
fn spaces_stop_at_other_characters() {
    assert_eq!(spaces(&chars(" \t\n x"), 0), 4);
    assert_eq!(spaces(&chars("x "), 0), 0);
    assert_eq!(spaces(&chars("ab  "), 2), 4);
}

#[test]
fn malformed_inputs_are_parse_errors() {
    assert_eq!(parse("".to_string()), Err(CalcError::Parse(0)));
    assert_eq!(parse("gauss(1,".to_string()), Err(CalcError::Parse(6)));
    assert_eq!(parse("gauss(1".to_string()), Err(CalcError::Parse(7)));
    assert_eq!(parse("gauss 1".to_string()), Err(CalcError::Parse(6)));
    assert_eq!(parse("seed(1) |".to_string()), Err(CalcError::Parse(9)));
    assert_eq!(parse("seed(1) || int".to_string()), Err(CalcError::Parse(9)));
    assert_eq!(parse("f(12.)".to_string()), Err(CalcError::Parse(4)));
    assert_eq!(parse("f(x)".to_string()), Err(CalcError::Parse(2)));
}

#[test]
fn leading_whitespace_only_moves_error_positions() {
    assert_eq!(parsed(" \t seed(3) | int"), parsed("seed(3) | int"));
    assert_eq!(parse("gauss(1".to_string()), Err(CalcError::Parse(7)));
    assert_eq!(parse("  gauss(1".to_string()), Err(CalcError::Parse(9)));
}

#[test]
fn spaces_inside_empty_parentheses() {
    assert_eq!(parsed("gauss( ) | int"), parsed("gauss() | int"));
    assert_eq!(parsed("gauss( ) | int"), vec![t("gauss", vec![]), t("int", vec![])]);
}

#[test]
fn ascii_character_classes() {
    assert!(identifier(&chars("Zz9"), 0).is_some());
    assert!(identifier(&chars("-x"), 0).is_none());
    assert_eq!(spaces(&chars("\u{a0}\u{3000}x"), 0), 2);
}
